use zygos_db::config::{Column, ColumnRole, ColumnType, MissingValuePolicy};
use zygos_db::rows::CellValue;
use zygos_db::tsv_reader::{
    get_cell_value, parse_i64_bytes, parse_rows, split_line, trim_end_bytes, RawCell,
    TabSeparatedFileReader,
};

fn lines(src: &[&str]) -> Vec<Vec<u8>> {
    src.iter().map(|s| s.as_bytes().to_vec()).collect()
}

fn col(name: &str, type_: ColumnType, policy: MissingValuePolicy) -> Column {
    Column { name: name.to_string(), type_, role: ColumnRole::Data, missing_value_policy: policy }
}

#[test]
fn tokenizer_splits_on_tabs_and_honours_quotes() {
    let fields = split_line(b"a\tb\tc", b'\t');
    assert_eq!(fields, vec![b"a".to_vec(), b"b".to_vec(), b"c".to_vec()]);
    // a quoted delimiter does not split
    let quoted = split_line(b"a\t\"x\ty\"\tc", b'\t');
    assert_eq!(quoted, vec![b"a".to_vec(), b"\"x\ty\"".to_vec(), b"c".to_vec()]);
    // empty interior fields are kept, a trailing delimiter yields none after it
    assert_eq!(split_line(b"a\t\tb", b'\t').len(), 3);
    assert_eq!(split_line(b"a\t", b'\t'), vec![b"a".to_vec()]);
    assert_eq!(split_line(b"", b'\t').len(), 0);
}

#[test]
fn trailing_whitespace_is_trimmed() {
    assert_eq!(trim_end_bytes(b"a\tb\r\n"), b"a\tb".to_vec());
    assert_eq!(trim_end_bytes(b"abc"), b"abc".to_vec());
}

#[test]
fn header_detects_tab_then_comma() {
    let mut tabs = TabSeparatedFileReader::new(lines(&["pos\tscore", "1\t2"]));
    let header = tabs.read_header().unwrap();
    assert_eq!(header, vec![b"pos".to_vec(), b"score".to_vec()]);
    assert_eq!(tabs.split_on, b'\t');

    let mut commas = TabSeparatedFileReader::new(lines(&["pos,score", "1,2"]));
    let header2 = commas.read_header().unwrap();
    assert_eq!(header2, vec![b"pos".to_vec(), b"score".to_vec()]);
    assert_eq!(commas.split_on, b',');

    let mut neither = TabSeparatedFileReader::new(lines(&["posscore"]));
    assert!(neither.read_header().is_err());
    let mut empty = TabSeparatedFileReader::new(lines(&[]));
    assert!(empty.read_header().is_err());
}

#[test]
fn find_column_indices_resolves_names() {
    let mut r = TabSeparatedFileReader::new(lines(&["chrom\tpos\tscore", "x\t1\t2"]));
    let found = r
        .find_column_indices(&vec!["pos".to_string(), "score".to_string()])
        .unwrap();
    assert_eq!(found[0], ("pos".to_string(), 1));
    assert_eq!(found[1], ("score".to_string(), 2));

    let mut r2 = TabSeparatedFileReader::new(lines(&["chrom\tpos", "x\t1"]));
    assert!(r2.find_column_indices(&vec!["missing".to_string()]).is_err());
}

#[test]
fn read_all_applies_missing_value_policies() {
    // omit: a row with an empty selected field disappears
    let mut r = TabSeparatedFileReader::new(lines(&["1\ta", "2\t", "3\tb"]));
    let omit = vec![
        (0usize, col("pos", ColumnType::Integer, MissingValuePolicy::OmitRow)),
        (1usize, col("name", ColumnType::VolatileString, MissingValuePolicy::OmitRow)),
    ];
    let rows = r.read_all(&omit).unwrap();
    assert_eq!(rows.len(), 2);

    // throw: the same input fails the read
    let mut r2 = TabSeparatedFileReader::new(lines(&["1\ta", "2\t", "3\tb"]));
    let throw = vec![
        (0usize, col("pos", ColumnType::Integer, MissingValuePolicy::Throw)),
        (1usize, col("name", ColumnType::VolatileString, MissingValuePolicy::Throw)),
    ];
    assert!(r2.read_all(&throw).is_err());

    // replace: the hole becomes an empty string
    let mut r3 = TabSeparatedFileReader::new(lines(&["2\t"]));
    let replace = vec![
        (0usize, col("pos", ColumnType::Integer, MissingValuePolicy::Throw)),
        (
            1usize,
            col("name", ColumnType::VolatileString, MissingValuePolicy::ReplaceWithEmptyString),
        ),
    ];
    let rows3 = r3.read_all(&replace).unwrap();
    assert_eq!(rows3.len(), 1);
    match &rows3[0][1] {
        RawCell::Text(b) => assert!(b.is_empty()),
        _ => panic!("expected a text cell"),
    }
}

#[test]
fn integer_parsing_follows_the_decimal_grammar() {
    assert_eq!(parse_i64_bytes(b"0"), Some(0));
    assert_eq!(parse_i64_bytes(b"42"), Some(42));
    assert_eq!(parse_i64_bytes(b"+5"), Some(5));
    assert_eq!(parse_i64_bytes(b"-1"), Some(-1));
    assert_eq!(parse_i64_bytes(b"007"), Some(7));
    assert_eq!(parse_i64_bytes(b"9223372036854775807"), Some(i64::MAX));
    assert_eq!(parse_i64_bytes(b"-9223372036854775808"), Some(i64::MIN));
    assert_eq!(parse_i64_bytes(b"9223372036854775808"), None);
    assert_eq!(parse_i64_bytes(b""), None);
    assert_eq!(parse_i64_bytes(b"-"), None);
    assert_eq!(parse_i64_bytes(b"12a"), None);
    assert_eq!(parse_i64_bytes(b"1.5"), None);
}

#[test]
fn cells_parse_to_their_declared_types() {
    let c = get_cell_value(ColumnType::Integer, &RawCell::Text(b"17".to_vec())).unwrap();
    assert!(matches!(c, CellValue::Integer(17)));
    let f = get_cell_value(ColumnType::Float, &RawCell::FloatBits(2.5f64.to_bits())).unwrap();
    match f {
        CellValue::Float(bits) => assert_eq!(f64::from_bits(bits), 2.5),
        _ => panic!("expected a float cell"),
    }
    let s = get_cell_value(ColumnType::VolatileString, &RawCell::Text(b"hi".to_vec())).unwrap();
    assert!(matches!(s, CellValue::Text(ref t) if t == "hi"));
    assert!(get_cell_value(ColumnType::Integer, &RawCell::Text(b"x".to_vec())).is_err());
    assert!(get_cell_value(ColumnType::HashtableString, &RawCell::Text(b"x".to_vec())).is_err());
}

#[test]
fn parse_rows_converts_whole_rows() {
    let raw = vec![vec![RawCell::Text(b"3".to_vec()), RawCell::Text(b"abc".to_vec())]];
    let columns = vec![
        col("pos", ColumnType::Integer, MissingValuePolicy::Throw),
        col("name", ColumnType::VolatileString, MissingValuePolicy::Throw),
    ];
    let rows = parse_rows(&raw, &columns).unwrap();
    assert!(matches!(rows[0][0], CellValue::Integer(3)));
    let bad = vec![vec![RawCell::Text(b"x".to_vec()), RawCell::Text(b"abc".to_vec())]];
    assert!(parse_rows(&bad, &columns).is_err());
}

#[test]
fn convert_read_data_sorts_by_leading_position() {
    let columns = vec![col("pos", ColumnType::Integer, MissingValuePolicy::Throw)];
    let rows = vec![
        vec![CellValue::Integer(30)],
        vec![CellValue::Integer(10)],
        vec![CellValue::Integer(20)],
    ];
    let sorted = TabSeparatedFileReader::convert_read_data(&columns, rows).unwrap();
    let keys: Vec<i64> = sorted
        .iter()
        .map(|r| match r[0] {
            CellValue::Integer(v) => v,
            _ => panic!("expected an integer"),
        })
        .collect();
    assert_eq!(keys, vec![10, 20, 30]);

    let bad = vec![vec![CellValue::Text("x".to_string())]];
    assert!(TabSeparatedFileReader::convert_read_data(&columns, bad).is_err());
}

#[test]
fn classification_and_sample_size() {
    let ints = vec![true, false, false, false];
    let floats = vec![true, true, false, false];
    let hash = vec![true, true, true, false];
    let got = TabSeparatedFileReader::guess_column_types_but_better(&ints, &floats, &hash, 10, 5)
        .unwrap();
    assert_eq!(
        got,
        vec![
            ColumnType::Integer,
            ColumnType::Float,
            ColumnType::HashtableString,
            ColumnType::VolatileString,
        ]
    );
    assert!(
        TabSeparatedFileReader::guess_column_types_but_better(&ints, &floats, &hash, 4, 5).is_err()
    );
}

#[test]
fn fast_split_hands_fields_out_in_order() {
    let mut it = zygos_db::tsv_reader::FastSplit::new(b"a\t\"x\ty\"\tc", b'\t');
    assert_eq!(it.next(), Some(b"a".to_vec()));
    assert_eq!(it.next(), Some(b"\"x\ty\"".to_vec()));
    assert_eq!(it.next(), Some(b"c".to_vec()));
    assert_eq!(it.next(), None);
}


#[test]
fn header_detection_skips_blank_lines() {
    let mut r = TabSeparatedFileReader::new(lines(&["", "   ", "pos\tscore", "1\t2"]));
    let header = r.read_header().unwrap();
    assert_eq!(header, vec![b"pos".to_vec(), b"score".to_vec()]);
    assert_eq!(r.split_on, b'\t');
    assert_eq!(r.cursor, 3);
}
