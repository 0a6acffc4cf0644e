use zygos_db::compression::{CompressionAlgorithm, RowCompressor, RowDecompressor};
use zygos_db::config::{
    Column, ColumnRole, ColumnType, Config, ConfigMetadata, Dataset, DatasetMetadata,
    MissingValuePolicy,
};

fn col(name: &str, type_: ColumnType, role: ColumnRole) -> Column {
    Column {
        name: name.to_string(),
        type_,
        role,
        missing_value_policy: MissingValuePolicy::Throw,
    }
}

fn dataset(columns: Vec<Column>) -> Dataset {
    Dataset {
        metadata: Some(DatasetMetadata { name: "d".to_string() }),
        file_per_chromosome: true,
        chromosomes: Some(vec![2, 1]),
        path: "chr{chromosome}.tsv".to_string(),
        columns,
        rows_per_index: 4,
        compression_algorithm: CompressionAlgorithm::NoCompression,
    }
}

fn config(d: Dataset) -> Config {
    Config {
        metadata: Some(ConfigMetadata { config_path: "c.toml".to_string() }),
        datasets: vec![d],
    }
}

#[test]
fn a_valid_configuration_passes() {
    let d = dataset(vec![
        col("pos", ColumnType::Integer, ColumnRole::Position),
        col("score", ColumnType::Float, ColumnRole::Data),
    ]);
    assert!(config(d).validate().is_ok());
    let pair = dataset(vec![
        col("start", ColumnType::Integer, ColumnRole::PositionStart),
        col("end", ColumnType::Integer, ColumnRole::PositionEnd),
    ]);
    assert!(config(pair).validate().is_ok());
}

#[test]
fn role_layout_rules_are_enforced() {
    // no position column at all
    let none = dataset(vec![col("a", ColumnType::Integer, ColumnRole::Data)]);
    assert!(config(none).validate().is_err());
    // two position columns
    let two = dataset(vec![
        col("a", ColumnType::Integer, ColumnRole::Position),
        col("b", ColumnType::Integer, ColumnRole::Position),
    ]);
    assert!(config(two).validate().is_err());
    // the position column must stand first
    let misplaced = dataset(vec![
        col("a", ColumnType::Float, ColumnRole::Data),
        col("b", ColumnType::Integer, ColumnRole::Position),
    ]);
    assert!(config(misplaced).validate().is_err());
    // a start without an end
    let lonely = dataset(vec![col("a", ColumnType::Integer, ColumnRole::PositionStart)]);
    assert!(config(lonely).validate().is_err());
    // position columns must be integers
    let fpos = dataset(vec![col("a", ColumnType::Float, ColumnRole::Position)]);
    assert!(config(fpos).validate().is_err());
    // the reserved hashtable type is refused
    let hashed = dataset(vec![
        col("pos", ColumnType::Integer, ColumnRole::Position),
        col("h", ColumnType::HashtableString, ColumnRole::Data),
    ]);
    assert!(config(hashed).validate().is_err());
}

#[test]
fn path_rules_are_enforced() {
    let mut no_placeholder = dataset(vec![col("pos", ColumnType::Integer, ColumnRole::Position)]);
    no_placeholder.path = "chr.tsv".to_string();
    assert!(config(no_placeholder).validate().is_err());

    let mut not_split = dataset(vec![col("pos", ColumnType::Integer, ColumnRole::Position)]);
    not_split.file_per_chromosome = false;
    assert!(config(not_split).validate().is_err());

    let mut empty = dataset(vec![col("pos", ColumnType::Integer, ColumnRole::Position)]);
    empty.chromosomes = Some(vec![]);
    assert!(config(empty).validate().is_err());

    let mut zero_rpi = dataset(vec![col("pos", ColumnType::Integer, ColumnRole::Position)]);
    zero_rpi.rows_per_index = 0;
    assert!(config(zero_rpi).validate().is_err());

    let mut long_name = dataset(vec![col(
        &"n".repeat(256),
        ColumnType::Integer,
        ColumnRole::Position,
    )]);
    long_name.columns[0].role = ColumnRole::Position;
    assert!(config(long_name).validate().is_err());
}

#[test]
fn get_paths_sorts_chromosomes_and_substitutes_them() {
    let d = dataset(vec![col("pos", ColumnType::Integer, ColumnRole::Position)]);
    let paths = d.get_paths();
    assert_eq!(paths.len(), 2);
    assert_eq!(paths[0].0, 1);
    assert_eq!(paths[0].1, b"chr1.tsv".to_vec());
    assert_eq!(paths[1].0, 2);
    assert_eq!(paths[1].1, b"chr2.tsv".to_vec());

    let mut multi = dataset(vec![col("pos", ColumnType::Integer, ColumnRole::Position)]);
    multi.chromosomes = Some(vec![123]);
    multi.path = "a/{chromosome}/b{chromosome}.tsv".to_string();
    let got = multi.get_paths();
    assert_eq!(got[0].1, b"a/123/b123.tsv".to_vec());
}

#[test]
fn compressor_and_decompressor_invert_each_other() {
    for algo in [CompressionAlgorithm::NoCompression, CompressionAlgorithm::Gzip] {
        let mut compressor = RowCompressor::new();
        compressor.buffer = (0u16..600).map(|i| (i % 251) as u8).collect();
        let original = compressor.buffer.clone();
        let mut out = vec![0xeeu8];
        let written = compressor.compress(algo, &mut out);
        assert_eq!(out.len(), 1 + written);
        let decompressor = RowDecompressor::new(algo);
        let back = decompressor.decompress(&out[1..]).unwrap();
        assert_eq!(back, original);
        if let CompressionAlgorithm::Gzip = algo {
            // the block really was transformed on the way through
            assert_ne!(&out[1..], original.as_slice());
            assert!(decompressor.decompress(&original[..16]).is_err());
        }
    }
}

#[test]
fn compression_tags_round_trip() {
    assert!(matches!(
        CompressionAlgorithm::try_from(0),
        Ok(CompressionAlgorithm::NoCompression)
    ));
    assert!(matches!(CompressionAlgorithm::try_from(1), Ok(CompressionAlgorithm::Gzip)));
    assert!(CompressionAlgorithm::try_from(2).is_err());
    assert!(matches!(ColumnType::try_from(3), Ok(ColumnType::HashtableString)));
    assert!(ColumnType::try_from(4).is_err());
    assert_eq!(ColumnType::VolatileString.to_u8(), 2);
}
