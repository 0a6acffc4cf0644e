use zygos_db::compression::CompressionAlgorithm;
use zygos_db::config::{Column, ColumnRole, ColumnType, Config, ConfigMetadata, Dataset,
    DatasetMetadata, MissingValuePolicy};
use zygos_db::database::{Database, Table};
use zygos_db::query::{DatabaseQueryClient, RowReader, TableIndex};
use zygos_db::rows::{CellValue, Row};

fn col(name: &str, type_: ColumnType, role: ColumnRole) -> Column {
    Column {
        name: name.to_string(),
        type_,
        role,
        missing_value_policy: MissingValuePolicy::Throw,
    }
}

fn pos_score_dataset(rows_per_index: usize, algo: CompressionAlgorithm) -> Dataset {
    Dataset {
        metadata: Some(DatasetMetadata { name: "variants".to_string() }),
        file_per_chromosome: true,
        chromosomes: Some(vec![1]),
        path: "chr{chromosome}.tsv".to_string(),
        columns: vec![
            col("pos", ColumnType::Integer, ColumnRole::Position),
            col("score", ColumnType::Float, ColumnRole::Data),
        ],
        rows_per_index,
        compression_algorithm: algo,
    }
}

fn row(pos: i64, score: f64) -> Row {
    vec![CellValue::Integer(pos), CellValue::Float(score.to_bits())]
}

fn cells_eq(a: &CellValue, b: &CellValue) -> bool {
    match (a, b) {
        (CellValue::Integer(x), CellValue::Integer(y)) => x == y,
        (CellValue::Float(x), CellValue::Float(y)) => x == y,
        (CellValue::Text(x), CellValue::Text(y)) => x == y,
        _ => false,
    }
}

fn rows_eq(a: &[Row], b: &[Row]) -> bool {
    a.len() == b.len()
        && a.iter().zip(b.iter()).all(|(r, s)| {
            r.len() == s.len() && r.iter().zip(s.iter()).all(|(x, y)| cells_eq(x, y))
        })
}

/// Build one single-dataset file and open a reader on its only table.
fn build_and_open(dataset: Dataset, rows: Vec<Row>) -> (Vec<u8>, RowReader) {
    let chromosome = dataset.chromosomes.as_ref().unwrap()[0];
    let types: Vec<ColumnType> = dataset.columns.iter().map(|c| c.type_).collect();
    let algo = dataset.compression_algorithm;
    let config = Config {
        metadata: Some(ConfigMetadata { config_path: "data.toml".to_string() }),
        datasets: vec![dataset],
    };
    let db = Database::new("out.zygosdb".to_string(), config);
    let tables = vec![vec![Table { chromosome, rows }]];
    let bytes = db.save_bytes(&tables).unwrap();

    let client = DatabaseQueryClient::new(bytes.clone());
    let header = client.read_database_header().unwrap();
    assert_eq!(header.version, 1);
    assert_eq!(header.datasets.len(), 1);
    assert_eq!(header.datasets[0].name, "variants");
    let table = header.datasets[0]
        .tables
        .iter()
        .find(|t| t.chromosome == chromosome)
        .unwrap();
    let index: TableIndex = client.read_table_index(table.offset).unwrap();
    let reader = RowReader::new(bytes.clone(), index, types, algo, chromosome);
    (bytes, reader)
}

#[test]
fn minimal_single_block_table() {
    let rows = vec![row(10, 1.5), row(20, 2.5), row(30, 3.5)];
    let (_bytes, reader) = build_and_open(
        pos_score_dataset(4, CompressionAlgorithm::NoCompression),
        rows.clone(),
    );
    assert_eq!(reader.index.inner.len(), 1);
    assert_eq!(reader.index.inner[0].0, 10);
    assert_eq!(reader.index.max_position, 30);

    let all = reader.query_range(0, 100).unwrap();
    assert!(rows_eq(&all, &rows));
    let mid = reader.query_range(20, 30).unwrap();
    assert!(rows_eq(&mid, &rows[1..2]));
    let last = reader.query_range(30, 31).unwrap();
    assert!(rows_eq(&last, &rows[2..3]));
    let none = reader.query_range(31, 100).unwrap();
    assert!(none.is_empty());
}

fn five_rows() -> Vec<Row> {
    vec![row(100, 1.0), row(200, 2.0), row(300, 3.0), row(400, 4.0), row(500, 5.0)]
}

#[test]
fn multi_block_index_lookup() {
    let (_bytes, reader) = build_and_open(
        pos_score_dataset(2, CompressionAlgorithm::NoCompression),
        five_rows(),
    );
    // three blocks keyed 100, 300, 500
    let keys: Vec<u64> = reader.index.inner.iter().map(|e| e.0).collect();
    assert_eq!(keys, vec![100, 300, 500]);
    // the predecessor block of 250 is scanned but only 300 and 400 are in range
    let got = reader.query_range(250, 450).unwrap();
    assert!(rows_eq(&got, &five_rows()[2..4]));
}

#[test]
fn gzip_round_trip_matches_uncompressed() {
    let (_b1, plain) = build_and_open(
        pos_score_dataset(2, CompressionAlgorithm::NoCompression),
        five_rows(),
    );
    let (_b2, gz) = build_and_open(pos_score_dataset(2, CompressionAlgorithm::Gzip), five_rows());
    for (a, b) in [(0u64, 1000u64), (250, 450), (100, 100), (500, 501)] {
        let lhs = plain.query_range(a, b).unwrap();
        let rhs = gz.query_range(a, b).unwrap();
        assert!(rows_eq(&lhs, &rhs));
    }
    let got = gz.query_range(250, 450).unwrap();
    assert!(rows_eq(&got, &five_rows()[2..4]));
}

#[test]
fn open_twice_yields_identical_results() {
    let rows = five_rows();
    let (bytes, reader) = build_and_open(
        pos_score_dataset(2, CompressionAlgorithm::NoCompression),
        rows,
    );
    let client = DatabaseQueryClient::new(bytes.clone());
    let header = client.read_database_header().unwrap();
    let offset = header.datasets[0].tables[0].offset;
    let index = client.read_table_index(offset).unwrap();
    let types = vec![ColumnType::Integer, ColumnType::Float];
    let again = RowReader::new(
        bytes.clone(),
        index,
        types,
        CompressionAlgorithm::NoCompression,
        1,
    );
    for (a, b) in [(0u64, 1000u64), (250, 450), (150, 350)] {
        let lhs = reader.query_range(a, b).unwrap();
        let rhs = again.query_range(a, b).unwrap();
        assert!(rows_eq(&lhs, &rhs));
    }
}

#[test]
fn empty_range_and_boundary_blocks() {
    let (_bytes, reader) = build_and_open(
        pos_score_dataset(2, CompressionAlgorithm::NoCompression),
        five_rows(),
    );
    // an empty interval selects nothing, even at an existing position
    assert!(reader.query_range(300, 300).unwrap().is_empty());
    // a query at the maximum position returns exactly its rows
    let at_max = reader.query_range(500, 501).unwrap();
    assert!(rows_eq(&at_max, &five_rows()[4..5]));
    // entirely below the minimum and entirely above the maximum are empty
    assert!(reader.query_range(0, 100).unwrap().is_empty());
    assert!(reader.query_range(501, 1000).unwrap().is_empty());
    // a block whose first position equals the start is included; one whose
    // first position equals the end is excluded
    let got = reader.query_range(300, 500).unwrap();
    assert!(rows_eq(&got, &five_rows()[2..4]));
}

#[test]
fn index_sparsity_is_the_ceiling_of_rows_over_block_size() {
    for (n, rpi, expect) in [(3usize, 4usize, 1usize), (5, 2, 3), (6, 2, 3), (7, 3, 3), (1, 1, 1)] {
        let rows: Vec<Row> = (0..n).map(|i| row((i as i64 + 1) * 10, i as f64)).collect();
        let (_bytes, reader) = build_and_open(
            pos_score_dataset(rpi, CompressionAlgorithm::NoCompression),
            rows,
        );
        assert_eq!(reader.index.inner.len(), expect);
    }
}

#[test]
fn negative_positions_are_rejected_at_build() {
    let mut out = Vec::new();
    let types = vec![ColumnType::Integer, ColumnType::Float];
    let err = Database::build_table(
        &mut out,
        &types,
        &vec![row(-1, 1.0)],
        4,
        CompressionAlgorithm::NoCompression,
    )
    .unwrap_err();
    assert!(matches!(err, zygos_db::DbError::ValidationError(_)));
}

#[test]
fn largest_position_round_trips() {
    let rows = vec![row(0, 0.0), row(1, 1.0), row(i64::MAX, 9.0)];
    let (_bytes, reader) = build_and_open(
        pos_score_dataset(2, CompressionAlgorithm::NoCompression),
        rows.clone(),
    );
    let max = i64::MAX as u64;
    assert!(reader.query_range(max, max).unwrap().is_empty());
    let got = reader.query_range(max, u64::MAX).unwrap();
    assert!(rows_eq(&got, &rows[2..3]));
    let got2 = reader.query_range(max - 1, max + 1).unwrap();
    assert!(rows_eq(&got2, &rows[2..3]));
    let all = reader.query_range(0, u64::MAX).unwrap();
    assert!(rows_eq(&all, &rows));
}

fn string_dataset() -> Dataset {
    Dataset {
        metadata: Some(DatasetMetadata { name: "variants".to_string() }),
        file_per_chromosome: true,
        chromosomes: Some(vec![1]),
        path: "chr{chromosome}.tsv".to_string(),
        columns: vec![
            col("pos", ColumnType::Integer, ColumnRole::Position),
            col("name", ColumnType::VolatileString, ColumnRole::Data),
        ],
        rows_per_index: 4,
        compression_algorithm: CompressionAlgorithm::NoCompression,
    }
}

#[test]
fn string_cells_up_to_255_bytes_build_and_longer_fail() {
    let ok = vec![vec![
        CellValue::Integer(1),
        CellValue::Text("x".repeat(255)),
    ]];
    let (_bytes, reader) = build_and_open(string_dataset(), ok);
    let got = reader.query_range(0, 10).unwrap();
    match &got[0][1] {
        CellValue::Text(s) => assert_eq!(s.len(), 255),
        _ => panic!("expected a string cell"),
    }

    let mut out = Vec::new();
    let types = vec![ColumnType::Integer, ColumnType::VolatileString];
    let too_long = vec![vec![
        CellValue::Integer(1),
        CellValue::Text("x".repeat(256)),
    ]];
    let err = Database::build_table(
        &mut out,
        &types,
        &too_long,
        4,
        CompressionAlgorithm::NoCompression,
    )
    .unwrap_err();
    assert!(matches!(err, zygos_db::DbError::ValidationError(_)));
}

#[test]
fn parallel_query_equals_sequential_on_a_large_table() {
    let n: i64 = 1_000_000;
    let rows: Vec<Row> = (0..n).map(|i| vec![CellValue::Integer(i + 1)]).collect();
    let types = vec![ColumnType::Integer];
    let mut bytes = Vec::new();
    let index = Database::build_table(
        &mut bytes,
        &types,
        &rows,
        10_000,
        CompressionAlgorithm::NoCompression,
    )
    .unwrap();
    assert_eq!(index.inner.len(), 100);
    let reader = RowReader::new(bytes, index, types, CompressionAlgorithm::NoCompression, 1);
    let seq = reader.query_range(10_000, 900_000).unwrap();
    let par = reader.query_range_parallel(10_000, 900_000, 8).unwrap();
    assert_eq!(seq.len(), 890_000);
    assert!(rows_eq(&seq, &par));
}

#[test]
fn parallel_query_equals_sequential_for_every_worker_count() {
    let (_bytes, reader) = build_and_open(
        pos_score_dataset(2, CompressionAlgorithm::NoCompression),
        five_rows(),
    );
    for parts in 1..=6 {
        for (a, b) in [(0u64, 1000u64), (250, 450), (300, 300), (150, 501)] {
            let seq = reader.query_range(a, b).unwrap();
            let par = reader.query_range_parallel(a, b, parts).unwrap();
            assert!(rows_eq(&seq, &par));
        }
    }
}

#[test]
fn opening_a_file_without_the_magic_fails() {
    let client = DatabaseQueryClient::new(b"NOTADB\x01\x01\x00".to_vec());
    let err = client.read_database_header().unwrap_err();
    assert!(matches!(err, zygos_db::DbError::InvalidFormat(_)));

    let (bytes, _reader) = build_and_open(
        pos_score_dataset(2, CompressionAlgorithm::NoCompression),
        five_rows(),
    );
    let mut wrong_version = bytes.clone();
    wrong_version[7] = 9;
    let client2 = DatabaseQueryClient::new(wrong_version);
    let err2 = client2.read_database_header().unwrap_err();
    assert!(matches!(err2, zygos_db::DbError::UnsupportedVersion(9)));
}

#[test]
fn table_index_reports_its_bounds() {
    let (bytes, reader) = build_and_open(
        pos_score_dataset(2, CompressionAlgorithm::NoCompression),
        five_rows(),
    );
    assert_eq!(reader.index.max_position, 500);
    assert!(reader.index.index_start_offset < reader.index.index_end_offset);
    assert_eq!(reader.index.index_end_offset as usize, bytes.len());
    let all = reader.index.get_all();
    assert_eq!(all.len(), 3);
}


#[test]
fn first_block_starts_right_after_the_header() {
    let rows = vec![row(10, 1.5), row(20, 2.5), row(30, 3.5)];
    let (bytes, reader) = build_and_open(
        pos_score_dataset(4, CompressionAlgorithm::NoCompression),
        rows,
    );
    // the header length is the file minus the single block and its index
    let mut header_copy = Vec::new();
    let config = Config {
        metadata: Some(ConfigMetadata { config_path: "data.toml".to_string() }),
        datasets: vec![pos_score_dataset(4, CompressionAlgorithm::NoCompression)],
    };
    let db = Database::new("out.zygosdb".to_string(), config);
    let offsets = vec![vec![(1u8, reader.index.index_start_offset)]];
    db.serialize_database_header(&mut header_copy, &offsets).unwrap();
    assert_eq!(reader.index.inner[0].1 as usize, header_copy.len());
    assert_eq!(&bytes[..header_copy.len()], header_copy.as_slice());
}

#[test]
fn builder_failures_name_their_rule() {
    let types = vec![ColumnType::Integer];
    // an empty table is a validation failure
    let mut out = Vec::new();
    let err = Database::build_table(
        &mut out,
        &types,
        &Vec::new(),
        4,
        CompressionAlgorithm::NoCompression,
    )
    .unwrap_err();
    match err {
        zygos_db::DbError::ValidationError(m) => assert!(m.contains("at least one row")),
        _ => panic!("expected a validation error"),
    }
    // unsorted rows are a validation failure naming the row
    let mut out2 = Vec::new();
    let unsorted = vec![
        vec![CellValue::Integer(5)],
        vec![CellValue::Integer(3)],
    ];
    let err2 = Database::build_table(
        &mut out2,
        &types,
        &unsorted,
        4,
        CompressionAlgorithm::NoCompression,
    )
    .unwrap_err();
    assert!(matches!(err2, zygos_db::DbError::ValidationError(_)));
}

#[test]
fn index_reader_errors_carry_their_kind() {
    let (bytes, reader) = build_and_open(
        pos_score_dataset(2, CompressionAlgorithm::NoCompression),
        five_rows(),
    );
    let client = DatabaseQueryClient::new(bytes.clone());
    // a bogus offset inside the file is an invalid-format error naming it
    let err = client.read_table_index(0).unwrap_err();
    match err {
        zygos_db::DbError::InvalidFormat(m) => assert!(m.contains("0")),
        _ => panic!("expected an invalid-format error"),
    }
    // an offset beyond any file is out of range
    let err2 = client.read_table_index(u64::MAX - 3).unwrap_err();
    assert!(matches!(err2, zygos_db::DbError::OutOfRange(_)));
    drop(reader);
}
