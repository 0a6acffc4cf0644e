//! The file builder: serializes rows into compressed blocks, emits each
//! table's sparse index, and writes the self-describing header.
use vstd::prelude::*;
use vstd::string::StrSliceExecFns;
use vstd::string::StringExecFns;
use vstd::utf8::encode_utf8;
use crate::DbError;
use crate::compression::CompressionAlgorithm;
use crate::compression::RowCompressor;
use crate::compression::decompress_of;
use crate::config::Column;
use crate::config::ColumnType;
use crate::config::Config;
use crate::config::Dataset;
use crate::query::has_magic;
use crate::query::ColumnHeaderModel;
use crate::query::DatabaseHeaderModel;
use crate::query::DatasetHeaderModel;
use crate::query::TableHeader;
use crate::query::parse_column;
use crate::query::parse_columns;
use crate::query::parse_dataset;
use crate::query::parse_datasets;
use crate::query::parse_header;
use crate::query::parse_table_entries;
use crate::query::parse_table_entry;
use crate::deserialize::string_at;
use vstd::utf8::encode_utf8_valid_utf8;
use vstd::utf8::encode_utf8_decode_utf8;
use crate::deserialize::be_bytes;
use crate::deserialize::push_u64_be;
use crate::rows::CellModel;
use crate::rows::CellValue;
use crate::rows::Row;
use crate::rows::block_bytes;
use crate::rows::block_conforms;
use crate::rows::cell_bytes;
use crate::rows::cell_conforms;
use crate::rows::cells_bytes;
use crate::rows::lemma_block_bytes_snoc;
use crate::rows::lemma_cells_bytes_snoc;
use crate::rows::row_bytes;
use crate::rows::row_conforms;
use crate::rows::row_pos;
use crate::rows::lemma_split_concat;
use crate::query::TableIndex;
use crate::query::TableIndexModel;
use crate::query::index_magic;
use crate::query::index_magic_vec;
use crate::query::parse_index_entries;
use crate::query::parse_table_index;
use crate::query::lemma_parse_table_index_agree;
use crate::query::lemma_table_wf_agree;
use crate::deserialize::lemma_be_bytes_len;
use crate::deserialize::lemma_be_load_be_bytes;
use crate::varint::lemma_vint_round_trip;
use crate::varint::lemma_vint_encode_len;
use crate::varint::push_zigzag_i64;
use vstd::arithmetic::power2::pow2;
use vstd::arithmetic::power2::lemma2_to64_rest;
use vstd::arithmetic::mul::lemma_mul_inequality;
use vstd::arithmetic::mul::lemma_mul_is_distributive_add_other_way;
use vstd::arithmetic::div_mod::lemma_fundamental_div_mod_converse;
use vstd::arithmetic::div_mod::lemma_mod_multiples_basic;
use crate::query::table_wf;
use crate::query::table_rows_of;
use crate::query::tbl_block_wf;
use crate::query::tbl_block_rows;
use crate::query::tbl_block_data;
use crate::query::tbl_block_start;
use crate::query::tbl_block_end;
use crate::query::tbl_compressed_block;
use crate::query::tbl_rows_from;
use crate::query::entries_sorted;
use crate::rows::full_scan_start;
use crate::rows::full_scan_end;
use crate::rows::lemma_block_round_trip;
use crate::rows::lemma_rows_in_range_full;
use crate::rows::lemma_subrange_stable;
use crate::rows::parse_range;
use crate::rows::rows_sorted;
use crate::varint::push_vint_u64;
use crate::varint::vint_encode;

verus! {

/// The sorted rows of one `(dataset, chromosome)` pair, ready to build.
pub struct Table {
    pub chromosome: u8,
    pub rows: Vec<Row>,
}

/// A database about to be built: the target path and the configuration.
pub struct Database {
    pub path: String,
    pub config: Config,
}

/// A chunk of rows can be serialized: every row fits the schema and every
/// leading position is non-negative.
pub open spec fn chunk_buildable(chunk: Seq<Seq<CellModel>>, types: Seq<ColumnType>) -> bool {
    &&& block_conforms(chunk, types)
    &&& forall|i: int| 0 <= i < chunk.len() ==> row_pos(#[trigger] chunk[i]) >= 0
}

impl Database {
    pub fn new(path: String, config: Config) -> (r: Self)
        ensures
            r.path == path,
            r.config == config,
    {
        Database { path, config }
    }

    /// Serialize the rows `rows[from..to]` as one uncompressed block.
    /// Succeeds exactly when every row fits the schema and every leading
    /// position is non-negative, appending exactly the block's bytes.
    pub fn serialize_dataset_block(
        bytes: &mut Vec<u8>,
        types: &Vec<ColumnType>,
        rows: &Vec<Row>,
        from: usize,
        to: usize,
    ) -> (r: Result<(), DbError>)
        requires
            from <= to <= rows@.len(),
            types@.len() >= 1,
            types@[0] == ColumnType::Integer,
        ensures
            match r {
                Ok(()) => {
                    &&& final(bytes)@ == old(bytes)@ + block_bytes(
                        rows.deep_view().subrange(from as int, to as int),
                    )
                    &&& chunk_buildable(
                        rows.deep_view().subrange(from as int, to as int),
                        types@,
                    )
                },
                Err(e) => !chunk_buildable(
                    rows.deep_view().subrange(from as int, to as int),
                    types@,
                ) && e is ValidationError,
            },
    {
        let ghost chunk = rows.deep_view().subrange(from as int, to as int);
        let mut i = from;
        proof {
            assert(chunk.take(0) =~= Seq::<Seq<CellModel>>::empty());
            assert(bytes@ =~= old(bytes)@ + block_bytes(chunk.take(0)));
        }
        while i < to
            invariant
                from <= i <= to <= rows@.len(),
                types@.len() >= 1,
                types@[0] == ColumnType::Integer,
                chunk == rows.deep_view().subrange(from as int, to as int),
                bytes@ == old(bytes)@ + block_bytes(chunk.take(i - from)),
                forall|m: int|
                    0 <= m < i - from ==> row_conforms(#[trigger] chunk[m], types@) && row_pos(
                        chunk[m],
                    ) >= 0,
            decreases to - i,
        {
            let ghost rowm = chunk[i - from];
            proof {
                assert(rows.deep_view()[i as int] == rows@[i as int].deep_view());
                assert(rowm == rows@[i as int].deep_view());
            }
            match Self::serialize_row(bytes, types, &rows[i], i) {
                Ok(()) => {},
                Err(e) => {
                    proof {
                        assert(!(row_conforms(rowm, types@) && row_pos(rowm) >= 0));
                    }
                    return Err(e);
                },
            }
            i = i + 1;
            proof {
                lemma_block_bytes_snoc(chunk.take(i - from - 1), rowm);
                assert(chunk.take(i - from) =~= chunk.take(i - from - 1).push(rowm));
                assert(old(bytes)@ + block_bytes(chunk.take(i - from - 1)) + row_bytes(rowm)
                    =~= old(bytes)@ + (block_bytes(chunk.take(i - from - 1)) + row_bytes(rowm)));
            }
        }
        proof {
            assert(chunk.take(to - from) =~= chunk);
        }
        Ok(())
    }

    /// Serialize one row: a zig-zag varint, 8 big-endian bytes, or a
    /// length-prefixed string per cell, in column order.
    fn serialize_row(bytes: &mut Vec<u8>, types: &Vec<ColumnType>, row: &Row, row_index: usize) -> (r:
        Result<(), DbError>)
        requires
            types@.len() >= 1,
            types@[0] == ColumnType::Integer,
        ensures
            match r {
                Ok(()) => {
                    &&& final(bytes)@ == old(bytes)@ + row_bytes(row.deep_view())
                    &&& row_conforms(row.deep_view(), types@)
                    &&& row_pos(row.deep_view()) >= 0
                },
                Err(e) => !(row_conforms(row.deep_view(), types@) && row_pos(row.deep_view())
                    >= 0) && e is ValidationError,
            },
    {
        let ghost rowm = row.deep_view();
        if row.len() != types.len() {
            return Err(
                DbError::ValidationError(
                    String::from_str("row has a different number of cells than the schema"),
                ),
            );
        }
        let mut j: usize = 0;
        proof {
            assert(rowm.take(0) =~= Seq::<CellModel>::empty());
            assert(cells_bytes(rowm.take(0)) == Seq::<u8>::empty());
            assert(bytes@ =~= old(bytes)@ + cells_bytes(rowm.take(0)));
        }
        while j < row.len()
            invariant
                j <= row@.len() == types@.len(),
                types@[0] == ColumnType::Integer,
                rowm == row.deep_view(),
                bytes@ == old(bytes)@ + cells_bytes(rowm.take(j as int)),
                forall|m: int| 0 <= m < j ==> cell_conforms(#[trigger] rowm[m], types@[m]),
                j >= 1 ==> row_pos(rowm) >= 0,
            decreases row@.len() - j,
        {
            let ghost cm = rowm[j as int];
            proof {
                assert(rowm[j as int] == row@[j as int].deep_view());
            }
            let ghost prev = bytes@;
            match &row[j] {
                CellValue::Integer(v) => {
                    if !matches!(types[j], ColumnType::Integer) {
                        return Err(
                            DbError::ValidationError(
                                String::from_str("integer cell in a non-integer column"),
                            ),
                        );
                    }
                    if j == 0 && *v < 0 {
                        return Err(
                            DbError::ValidationError(
                                String::from_str(
                                    "position must be a non-negative integer in the leading column (row ",
                                ).concat(crate::u64_to_string(row_index as u64).as_str()).concat(
                                    ")",
                                ),
                            ),
                        );
                    }
                    push_zigzag_i64(bytes, *v);
                },
                CellValue::Float(b) => {
                    if !matches!(types[j], ColumnType::Float) {
                        return Err(
                            DbError::ValidationError(
                                String::from_str("float cell in a non-float column"),
                            ),
                        );
                    }
                    push_u64_be(bytes, *b);
                },
                CellValue::Text(s) => {
                    if !matches!(types[j], ColumnType::VolatileString) {
                        return Err(
                            DbError::ValidationError(
                                String::from_str("string cell in a non-string column"),
                            ),
                        );
                    }
                    let mut bv = s.as_str().as_bytes_vec();
                    if bv.len() > 255 {
                        return Err(
                            DbError::ValidationError(
                                String::from_str(
                                    "strings longer than 255 bytes are currently not supported (column ",
                                ).concat(crate::u64_to_string(j as u64).as_str()).concat(
                                    ", row ",
                                ).concat(crate::u64_to_string(row_index as u64).as_str()).concat(
                                    ")",
                                ),
                            ),
                        );
                    }
                    let n = bv.len() as u8;
                    bytes.push(n);
                    let ghost mid = bytes@;
                    bytes.append(&mut bv);
                    proof {
                        assert(bytes@ =~= prev + cell_bytes(cm));
                    }
                },
            }
            j = j + 1;
            proof {
                lemma_cells_bytes_snoc(rowm.take(j - 1), cm);
                assert(rowm.take(j as int) =~= rowm.take(j - 1).push(cm));
                assert(prev + cell_bytes(cm) =~= old(bytes)@ + (cells_bytes(rowm.take(j - 1))
                    + cell_bytes(cm)));
            }
        }
        proof {
            assert(rowm.take(rowm.len() as int) =~= rowm);
        }
        Ok(())
    }
}

/// The varint `(position, offset)` pairs of a table index, in order.
pub open spec fn entry_pairs_bytes(entries: Seq<(u64, u64)>) -> Seq<u8>
    decreases entries.len(),
{
    if entries.len() == 0 {
        Seq::empty()
    } else {
        vint_encode(entries.first().0 as int) + vint_encode(entries.first().1 as int)
            + entry_pairs_bytes(entries.drop_first())
    }
}

/// The on-disk bytes of a table index standing at offset `iso`: the
/// `INDEX` magic, the largest position, the end offset, the entry count
/// and the entry pairs.
pub open spec fn index_bytes(entries: Seq<(u64, u64)>, max_position: u64, iso: int) -> Seq<u8> {
    index_magic() + be_bytes(max_position as int, 8) + be_bytes(
        iso + 29 + entry_pairs_bytes(entries).len(),
        8,
    ) + be_bytes(entries.len() as int, 8) + entry_pairs_bytes(entries)
}

/// Appending one entry appends its two varints.
proof fn lemma_entry_pairs_snoc(entries: Seq<(u64, u64)>, e: (u64, u64))
    ensures
        entry_pairs_bytes(entries.push(e)) == entry_pairs_bytes(entries) + (vint_encode(
            e.0 as int,
        ) + vint_encode(e.1 as int)),
    decreases entries.len(),
{
    let pair = vint_encode(e.0 as int) + vint_encode(e.1 as int);
    if entries.len() == 0 {
        assert(entries.push(e).first() == e);
        assert(entries.push(e).drop_first() =~= Seq::<(u64, u64)>::empty());
        assert(entry_pairs_bytes(Seq::<(u64, u64)>::empty()) == Seq::<u8>::empty());
        assert(entry_pairs_bytes(entries.push(e)) == vint_encode(e.0 as int) + vint_encode(
            e.1 as int,
        ) + Seq::<u8>::empty());
        assert(vint_encode(e.0 as int) + vint_encode(e.1 as int) + Seq::<u8>::empty() =~= pair);
        assert(entry_pairs_bytes(entries) + pair =~= pair);
    } else {
        assert(entries.push(e).first() == entries.first());
        assert(entries.push(e).drop_first() =~= entries.drop_first().push(e));
        lemma_entry_pairs_snoc(entries.drop_first(), e);
        let h = vint_encode(entries.first().0 as int) + vint_encode(entries.first().1 as int);
        assert(h + (entry_pairs_bytes(entries.drop_first()) + pair) =~= (h + entry_pairs_bytes(
            entries.drop_first(),
        )) + pair);
    }
}

/// Each entry takes at most 18 bytes (two varints of at most 9).
proof fn lemma_entry_pairs_len_bound(entries: Seq<(u64, u64)>)
    ensures
        entry_pairs_bytes(entries).len() <= 18 * entries.len(),
    decreases entries.len(),
{
    if entries.len() > 0 {
        lemma_vint_encode_len(entries.first().0);
        lemma_vint_encode_len(entries.first().1);
        lemma_entry_pairs_len_bound(entries.drop_first());
    }
}

/// Round trip for the entry pairs: parsing the serialized pairs yields
/// the entries and consumes exactly their bytes.
proof fn lemma_entry_pairs_round_trip(b: Seq<u8>, pos: int, entries: Seq<(u64, u64)>)
    requires
        0 <= pos,
        pos + entry_pairs_bytes(entries).len() <= b.len(),
        b.subrange(pos, pos + entry_pairs_bytes(entries).len()) == entry_pairs_bytes(entries),
    ensures
        parse_index_entries(b, pos, entries.len()) == Some(
            (entries, pos + entry_pairs_bytes(entries).len()),
        ),
    decreases entries.len(),
{
    if entries.len() > 0 {
        let e = entries.first();
        let ea = vint_encode(e.0 as int);
        let eb = vint_encode(e.1 as int);
        let rest = entry_pairs_bytes(entries.drop_first());
        lemma_vint_encode_len(e.0);
        lemma_vint_encode_len(e.1);
        assert(entry_pairs_bytes(entries) == (ea + eb) + rest);
        assert((ea + eb) + rest =~= ea + (eb + rest));
        lemma_split_concat(b, pos, ea, eb + rest);
        lemma_split_concat(b, pos + ea.len(), eb, rest);
        lemma_vint_round_trip(b, pos, e.0);
        lemma_vint_round_trip(b, pos + ea.len(), e.1);
        lemma_entry_pairs_round_trip(b, pos + ea.len() + eb.len(), entries.drop_first());
        assert(seq![e] + entries.drop_first() =~= entries);
    }
}

/// Round trip for a whole table index: wherever its serialized bytes
/// stand at their recorded offset, parsing yields its model.
pub proof fn lemma_index_round_trip(b: Seq<u8>, iso: int, entries: Seq<(u64, u64)>, max_position: u64)
    requires
        0 <= iso,
        iso + index_bytes(entries, max_position, iso).len() <= b.len(),
        b.len() < pow2(64),
        entries.len() < pow2(64),
        b.subrange(iso, iso + index_bytes(entries, max_position, iso).len()) == index_bytes(
            entries,
            max_position,
            iso,
        ),
    ensures
        parse_table_index(b, iso) == Some(
            TableIndexModel {
                entries: entries,
                max_position: max_position,
                index_start_offset: iso as u64,
                index_end_offset: (iso + 29 + entry_pairs_bytes(entries).len()) as u64,
            },
        ),
{
    lemma2_to64_rest();
    let pairs = entry_pairs_bytes(entries);
    let end_off = iso + 29 + pairs.len();
    let bmax = be_bytes(max_position as int, 8);
    let bend = be_bytes(end_off, 8);
    let bcount = be_bytes(entries.len() as int, 8);
    lemma_be_bytes_len(max_position as int, 8);
    lemma_be_bytes_len(end_off, 8);
    lemma_be_bytes_len(entries.len() as int, 8);
    let whole = index_bytes(entries, max_position, iso);
    assert(whole.len() == 29 + pairs.len());
    assert(whole =~= index_magic() + (bmax + (bend + (bcount + pairs))));
    lemma_split_concat(b, iso, index_magic(), bmax + (bend + (bcount + pairs)));
    lemma_split_concat(b, iso + 5, bmax, bend + (bcount + pairs));
    lemma_split_concat(b, iso + 13, bend, bcount + pairs);
    lemma_split_concat(b, iso + 21, bcount, pairs);
    assert(b.subrange(iso, iso + 5) == index_magic());
    assert(b.subrange(iso + 5, iso + 13) == bmax);
    assert(b.subrange(iso + 13, iso + 21) == bend);
    assert(b.subrange(iso + 21, iso + 29) == bcount);
    lemma_be_load_be_bytes(max_position as int, 8);
    lemma_be_load_be_bytes(end_off, 8);
    lemma_be_load_be_bytes(entries.len() as int, 8);
    lemma_entry_pairs_round_trip(b, iso + 29, entries);
}

impl Database {
    /// Append the on-disk table index: the `INDEX` magic, the largest
    /// position, the end offset, the entry count and the varint entry
    /// pairs.  The index starts at the current end of `bytes`.
    pub fn serialize_table_index(bytes: &mut Vec<u8>, indices: &Vec<(u64, u64)>, max_position: u64) -> (r:
        Result<(), DbError>)
        ensures
            match r {
                Ok(()) => final(bytes)@ == old(bytes)@ + index_bytes(
                    indices@,
                    max_position,
                    old(bytes)@.len() as int,
                ),
                Err(e) => {
                    &&& final(bytes)@ == old(bytes)@
                    &&& e is OutOfRange
                    &&& old(bytes)@.len() + 29 + entry_pairs_bytes(indices@).len()
                        > usize::MAX
                },
            },
    {
        let mut pairs: Vec<u8> = Vec::new();
        let mut i: usize = 0;
        proof {
            assert(indices@.take(0) =~= Seq::<(u64, u64)>::empty());
            assert(pairs@ =~= entry_pairs_bytes(indices@.take(0)));
        }
        while i < indices.len()
            invariant
                i <= indices@.len(),
                pairs@ == entry_pairs_bytes(indices@.take(i as int)),
            decreases indices@.len() - i,
        {
            let e = indices[i];
            let ghost before = pairs@;
            push_vint_u64(&mut pairs, e.0);
            push_vint_u64(&mut pairs, e.1);
            i = i + 1;
            proof {
                lemma_entry_pairs_snoc(indices@.take(i - 1), e);
                assert(indices@.take(i as int) =~= indices@.take(i - 1).push(e));
                assert(before + vint_encode(e.0 as int) + vint_encode(e.1 as int) =~= before + (
                vint_encode(e.0 as int) + vint_encode(e.1 as int)));
            }
        }
        proof {
            assert(indices@.take(indices@.len() as int) =~= indices@);
        }
        if usize::MAX - 29 < pairs.len() || usize::MAX - 29 - pairs.len() < bytes.len() {
            return Err(DbError::OutOfRange(String::from_str("table index exceeds address space")));
        }
        let iso = bytes.len();
        let end_off = iso + 29 + pairs.len();
        let mut magic = index_magic_vec();
        bytes.append(&mut magic);
        push_u64_be(bytes, max_position);
        push_u64_be(bytes, end_off as u64);
        push_u64_be(bytes, indices.len() as u64);
        let ghost pview = pairs@;
        bytes.append(&mut pairs);
        proof {
            assert(bytes@ =~= old(bytes)@ + (index_magic() + be_bytes(max_position as int, 8)
                + be_bytes(end_off as int, 8) + be_bytes(indices@.len() as int, 8) + pview));
            assert(index_bytes(indices@, max_position, iso as int) =~= index_magic() + be_bytes(
                max_position as int,
                8,
            ) + be_bytes(end_off as int, 8) + be_bytes(indices@.len() as int, 8) + pview);
        }
        Ok(())
    }
}

/// Rows can make a table: at least one row, all fitting the schema with
/// non-negative leading positions, sorted ascending, and strictly
/// increasing across every block boundary.
pub open spec fn table_buildable(rows: Seq<Seq<CellModel>>, types: Seq<ColumnType>, rpi: int) -> bool {
    &&& rows.len() >= 1
    &&& chunk_buildable(rows, types)
    &&& crate::rows::rows_sorted(rows)
    &&& forall|j: int|
        0 < j < rows.len() && j % rpi == 0 ==> row_pos(rows[j - 1]) < row_pos(#[trigger] rows[j])
}

/// Non-decreasing adjacent positions make the whole sequence sorted.
proof fn lemma_sorted_from_adjacent(rows: Seq<Seq<CellModel>>)
    requires
        forall|j: int| 0 < j < rows.len() ==> row_pos(rows[j - 1]) <= row_pos(#[trigger] rows[j]),
    ensures
        crate::rows::rows_sorted(rows),
{
    assert forall|i: int, j: int| 0 <= i <= j < rows.len() implies row_pos(#[trigger] rows[i])
        <= row_pos(#[trigger] rows[j]) by {
        lemma_sorted_from_adjacent_step(rows, i, j);
    };
}

proof fn lemma_sorted_from_adjacent_step(rows: Seq<Seq<CellModel>>, i: int, j: int)
    requires
        forall|m: int| 0 < m < rows.len() ==> row_pos(rows[m - 1]) <= row_pos(#[trigger] rows[m]),
        0 <= i <= j < rows.len(),
    ensures
        row_pos(rows[i]) <= row_pos(rows[j]),
    decreases j - i,
{
    if i < j {
        lemma_sorted_from_adjacent_step(rows, i, j - 1);
        assert(row_pos(rows[j - 1]) <= row_pos(rows[j]));
    }
}

impl Database {
    /// Check the row-level build rules: a leading non-negative integer in
    /// every row, ascending order, and a strict increase at every block
    /// boundary.  Succeeds exactly when no rule fails (cell types other
    /// than the leading one are checked during serialization).
    fn check_table_rows(rows: &Vec<Row>, types: &Vec<ColumnType>, rows_per_index: usize) -> (r:
        Result<(), DbError>)
        requires
            rows_per_index >= 1,
            types@.len() >= 1,
            types@[0] == ColumnType::Integer,
        ensures
            match r {
                Ok(()) => {
                    &&& rows@.len() >= 1
                    &&& forall|i: int|
                        0 <= i < rows.deep_view().len() ==> (#[trigger] rows.deep_view()[i]).len()
                            >= 1 && rows.deep_view()[i][0] is Int && row_pos(rows.deep_view()[i])
                            >= 0
                    &&& crate::rows::rows_sorted(rows.deep_view())
                    &&& forall|j: int|
                        0 < j < rows.deep_view().len() && j % (rows_per_index as int) == 0
                            ==> row_pos(rows.deep_view()[j - 1]) < row_pos(
                            #[trigger] rows.deep_view()[j],
                        )
                },
                Err(e) => !table_buildable(rows.deep_view(), types@, rows_per_index as int)
                    && e is ValidationError,
            },
    {
        let ghost deep = rows.deep_view();
        let n = rows.len();
        if n == 0 {
            return Err(
                DbError::ValidationError(String::from_str("table must have at least one row")),
            );
        }
        let mut prev: i64 = 0;
        let mut i: usize = 0;
        while i < n
            invariant
                i <= n == rows@.len(),
                deep == rows.deep_view(),
                deep.len() == n,
                types@.len() >= 1,
                types@[0] == ColumnType::Integer,
                rows_per_index >= 1,
                forall|m: int|
                    0 <= m < i ==> (#[trigger] deep[m]).len() >= 1 && deep[m][0] is Int && row_pos(
                        deep[m],
                    ) >= 0,
                forall|m: int| 0 < m < i ==> row_pos(deep[m - 1]) <= row_pos(#[trigger] deep[m]),
                forall|m: int|
                    0 < m < i && m % (rows_per_index as int) == 0 ==> row_pos(deep[m - 1])
                        < row_pos(#[trigger] deep[m]),
                i >= 1 ==> prev as int == row_pos(deep[i - 1]),
            decreases n - i,
        {
            proof {
                assert(deep[i as int] == rows@[i as int].deep_view());
            }
            if rows[i].len() == 0 {
                proof {
                    assert(!row_conforms(deep[i as int], types@));
                }
                return Err(
                    DbError::ValidationError(
                        String::from_str("a row has no cells (row ").concat(
                            crate::u64_to_string(i as u64).as_str(),
                        ).concat(")"),
                    ),
                );
            }
            let p: i64 = match &rows[i][0] {
                CellValue::Integer(v) => *v,
                CellValue::Float(_) => {
                    proof {
                        assert(!cell_conforms(deep[i as int][0], types@[0]));
                        assert(!row_conforms(deep[i as int], types@));
                    }
                    return Err(
                        DbError::ValidationError(
                            String::from_str("the leading cell of a row is not an integer"),
                        ),
                    );
                },
                CellValue::Text(_) => {
                    proof {
                        assert(!cell_conforms(deep[i as int][0], types@[0]));
                        assert(!row_conforms(deep[i as int], types@));
                    }
                    return Err(
                        DbError::ValidationError(
                            String::from_str("the leading cell of a row is not an integer"),
                        ),
                    );
                },
            };
            if p < 0 {
                return Err(
                    DbError::ValidationError(
                        String::from_str(
                            "position must be a non-negative integer in the leading column",
                        ),
                    ),
                );
            }
            if i >= 1 {
                if prev > p {
                    return Err(
                        DbError::ValidationError(
                            String::from_str(
                                "rows are not sorted by their leading position (row ",
                            ).concat(crate::u64_to_string(i as u64).as_str()).concat(")"),
                        ),
                    );
                }
                if i % rows_per_index == 0 && prev == p {
                    return Err(
                        DbError::ValidationError(
                            String::from_str(
                                "a block boundary splits rows that share a leading position (row ",
                            ).concat(crate::u64_to_string(i as u64).as_str()).concat(")"),
                        ),
                    );
                }
            }
            prev = p;
            i = i + 1;
        }
        proof {
            lemma_sorted_from_adjacent(deep);
        }
        Ok(())
    }
}

/// The rows of block `m` when `deep` is cut into runs of `rpi`.
pub open spec fn chunk_of(deep: Seq<Seq<CellModel>>, rpi: int, m: int) -> Seq<Seq<CellModel>> {
    deep.subrange(
        m * rpi,
        if (m + 1) * rpi < deep.len() {
            (m + 1) * rpi
        } else {
            deep.len() as int
        },
    )
}

/// The declared cell types of a dataset's columns, in column order.
pub open spec fn dataset_types(d: Dataset) -> Seq<ColumnType> {
    d.columns@.map_values(|c: Column| c.type_)
}

/// A dataset's schema can drive the builder: at least one column, an
/// integer leading type, and a positive block size.
pub open spec fn dataset_schema_ok(d: Dataset) -> bool {
    &&& d.columns@.len() >= 1
    &&& d.columns@[0].type_ == ColumnType::Integer
    &&& d.rows_per_index >= 1
}

/// Everything the whole build needs of names and counts: a serializable
/// header (every name and count in one byte) and a usable schema per
/// dataset.
pub open spec fn save_serializable(ds: Seq<Dataset>, tables: Seq<Vec<Table>>) -> bool {
    &&& ds.len() <= 255
    &&& tables.len() == ds.len()
    &&& forall|d: int|
        0 <= d < ds.len() ==> {
            &&& (#[trigger] ds[d]).metadata is Some
            &&& encode_utf8(ds[d].metadata->Some_0.name@).len() <= 255
            &&& ds[d].columns@.len() <= 255
            &&& tables[d]@.len() <= 255
            &&& (forall|j: int|
                0 <= j < ds[d].columns@.len() ==> encode_utf8(
                    (#[trigger] ds[d].columns@[j]).name@,
                ).len() <= 255)
            &&& dataset_schema_ok(ds[d])
        }
}

/// One table stands installed in a file image: a sorted index parses at
/// `off`, the table it describes is well formed, holds exactly `rows`,
/// and all its bytes lie at or past `lo`.  (Opaque: reveal
/// `table_installed` to use the conjuncts.)
#[verifier::opaque]
pub open spec fn table_installed(
    file: Seq<u8>,
    lo: int,
    off: int,
    types: Seq<ColumnType>,
    algo: CompressionAlgorithm,
    rows: Seq<Seq<CellModel>>,
) -> bool {
    &&& parse_table_index(file, off) matches Some(m)
    &&& entries_sorted(parse_table_index(file, off)->Some_0.entries)
    &&& table_wf(
        file,
        parse_table_index(file, off)->Some_0.entries,
        off,
        parse_table_index(file, off)->Some_0.max_position,
        types,
        algo,
    )
    &&& table_rows_of(file, parse_table_index(file, off)->Some_0.entries, off, types, algo) == rows
    &&& 0 <= lo <= off
    &&& forall|k: int|
        0 <= k < parse_table_index(file, off)->Some_0.entries.len() ==> lo <= (
        #[trigger] parse_table_index(file, off)->Some_0.entries[k]).1 as int
}

/// A freshly built table is installed: the builder's facts are exactly
/// the installation's, with its bytes standing past `hl`.
proof fn lemma_build_gives_installed(
    file: Seq<u8>,
    prev_len: int,
    hl: int,
    ti: TableIndexModel,
    types: Seq<ColumnType>,
    algo: CompressionAlgorithm,
    rows: Seq<Seq<CellModel>>,
)
    requires
        0 <= hl <= prev_len,
        parse_table_index(file, ti.index_start_offset as int) == Some(ti),
        entries_sorted(ti.entries),
        table_wf(file, ti.entries, ti.index_start_offset as int, ti.max_position, types, algo),
        table_rows_of(file, ti.entries, ti.index_start_offset as int, types, algo) == rows,
        prev_len <= ti.index_start_offset as int,
        forall|k: int|
            0 <= k < ti.entries.len() ==> prev_len <= (#[trigger] ti.entries[k]).1 as int,
    ensures
        table_installed(file, hl, ti.index_start_offset as int, types, algo, rows),
{
    reveal(table_installed);
}

/// An installed table survives any rewrite below `lo` and any append
/// after the file's end.
pub proof fn lemma_table_installed_agree(
    f1: Seq<u8>,
    f2: Seq<u8>,
    lo: int,
    off: int,
    types: Seq<ColumnType>,
    algo: CompressionAlgorithm,
    rows: Seq<Seq<CellModel>>,
)
    requires
        table_installed(f1, lo, off, types, algo, rows),
        f1.len() <= f2.len(),
        f2.subrange(lo, f1.len() as int) == f1.subrange(lo, f1.len() as int),
    ensures
        table_installed(f2, lo, off, types, algo, rows),
{
    reveal(table_installed);
    let m = parse_table_index(f1, off)->Some_0;
    assert(off + 29 <= f1.len());
    lemma_parse_table_index_agree(f1, f2, lo, off);
    lemma_table_wf_agree(f1, f2, lo, m.entries, off, m.max_position, types, algo);
}

/// Every block of the table holds exactly its chunk of the input rows:
/// block `k` parses back to rows `[k * rpi, min((k + 1) * rpi, n))`.
#[verifier::opaque]
pub open spec fn blocks_hold_chunks(
    file: Seq<u8>,
    entries: Seq<(u64, u64)>,
    iso: int,
    types: Seq<ColumnType>,
    algo: CompressionAlgorithm,
    deep: Seq<Seq<CellModel>>,
    rpi: int,
) -> bool {
    forall|k: int|
        0 <= k < entries.len() ==> #[trigger] tbl_block_rows(file, entries, iso, types, algo, k)
            == chunk_of(deep, rpi, k)
}

/// Concatenating the blocks from `m` on gives the rows from `m * rpi` on.
proof fn lemma_built_rows(
    file: Seq<u8>,
    entries: Seq<(u64, u64)>,
    iso: int,
    types: Seq<ColumnType>,
    algo: CompressionAlgorithm,
    deep: Seq<Seq<CellModel>>,
    rpi: int,
    m: int,
)
    requires
        rpi >= 1,
        0 <= m <= entries.len(),
        entries.len() >= 1,
        (entries.len() - 1) * rpi < deep.len(),
        deep.len() <= entries.len() * rpi,
        forall|t: int|
            0 <= t < entries.len() ==> #[trigger] tbl_block_rows(file, entries, iso, types, algo, t)
                == chunk_of(deep, rpi, t),
    ensures
        tbl_rows_from(file, entries, iso, types, algo, m) == deep.subrange(
            if m * rpi < deep.len() {
                m * rpi
            } else {
                deep.len() as int
            },
            deep.len() as int,
        ),
    decreases entries.len() - m,
{
    let n = deep.len() as int;
    if m == entries.len() {
        assert(m * rpi >= n) by {
            lemma_mul_inequality(entries.len() as int, m, rpi);
        };
        assert(deep.subrange(n, n) =~= Seq::<Seq<CellModel>>::empty());
    } else {
        lemma_built_rows(file, entries, iso, types, algo, deep, rpi, m + 1);
        assert(m * rpi < n) by {
            lemma_mul_inequality(m, entries.len() as int - 1, rpi);
        };
        let a = m * rpi;
        let b = if (m + 1) * rpi < n {
            (m + 1) * rpi
        } else {
            n
        };
        assert(a < b <= n) by {
            assert((m + 1) * rpi == m * rpi + rpi) by {
                lemma_mul_is_distributive_add_other_way(rpi, m, 1);
            };
        };
        assert(deep.subrange(a, b) + deep.subrange(b, n) =~= deep.subrange(a, n));
    }
}

/// The blocks recorded so far lie back to back after `base_len`, each
/// decompressing to its chunk's bytes, each keyed by its first position.
pub open spec fn blocks_laid_out(
    out: Seq<u8>,
    base_len: int,
    entries: Seq<(u64, u64)>,
    deep: Seq<Seq<CellModel>>,
    rpi: int,
    algo: CompressionAlgorithm,
) -> bool {
    forall|m: int|
        0 <= m < entries.len() ==> {
            let start = (#[trigger] entries[m]).1 as int;
            let end = if m + 1 < entries.len() {
                entries[m + 1].1 as int
            } else {
                out.len() as int
            };
            &&& base_len <= start <= end <= out.len()
            &&& decompress_of(algo, out.subrange(start, end)) == Some(
                block_bytes(chunk_of(deep, rpi, m)),
            )
            &&& entries[m].0 as int == row_pos(deep[m * rpi])
        }
}

impl Database {
    /// Assemble a table whose compressed blocks already stand after
    /// `base`: append the on-disk index and conclude the table's facts.
    #[verifier::rlimit(100)]
    #[verifier::spinoff_prover]
    fn complete_table(
        out: &mut Vec<u8>,
        rows: &Vec<Row>,
        entries: Vec<(u64, u64)>,
        rows_per_index: usize,
        algorithm: CompressionAlgorithm,
        Ghost(base): Ghost<Seq<u8>>,
        Ghost(deep): Ghost<Seq<Seq<CellModel>>>,
        Ghost(types_g): Ghost<Seq<ColumnType>>,
        Ghost(lo): Ghost<int>,
    ) -> (r: Result<TableIndex, DbError>)
        requires
            0 <= lo <= base.len(),
            deep == rows.deep_view(),
            rows_per_index >= 1,
            types_g.len() >= 1,
            types_g[0] == ColumnType::Integer,
            deep.len() == rows@.len(),
            rows@.len() >= 1,
            (if entries@.len() * (rows_per_index as int) < deep.len() {
                entries@.len() * (rows_per_index as int)
            } else {
                deep.len() as int
            }) == deep.len(),
            entries@.len() >= 1 ==> (entries@.len() - 1) * (rows_per_index as int) < deep.len(),
            base.len() <= old(out)@.len(),
            old(out)@.subrange(0, base.len() as int) == base,
            forall|i: int|
                0 <= i < deep.len() ==> (#[trigger] deep[i]).len() >= 1 && deep[i][0] is Int
                    && row_pos(deep[i]) >= 0,
            rows_sorted(deep),
            forall|j: int|
                0 < j < deep.len() && j % (rows_per_index as int) == 0 ==> row_pos(deep[j - 1])
                    < row_pos(#[trigger] deep[j]),
            forall|i: int| 0 <= i < deep.len() ==> row_conforms(#[trigger] deep[i], types_g),
            blocks_laid_out(
                old(out)@,
                base.len() as int,
                entries@,
                deep,
                rows_per_index as int,
                algorithm,
            ),
        ensures
            match r {
                Ok(ti) => {
                    &&& table_buildable(deep, types_g, rows_per_index as int)
                    &&& final(out)@.len() >= base.len()
                    &&& final(out)@.subrange(0, base.len() as int) == base
                    &&& ti.index_start_offset as int <= final(out)@.len()
                    &&& table_wf(
                        final(out)@,
                        ti.inner@,
                        ti.index_start_offset as int,
                        ti.max_position,
                        types_g,
                        algorithm,
                    )
                    &&& table_rows_of(
                        final(out)@,
                        ti.inner@,
                        ti.index_start_offset as int,
                        types_g,
                        algorithm,
                    ) == deep
                    &&& ti.inner@.len() as int == (deep.len() + rows_per_index - 1) as int / (
                    rows_per_index as int)
                    &&& parse_table_index(final(out)@, ti.index_start_offset as int) == Some(ti@)
                    &&& ti.index_end_offset as int == final(out)@.len()
                    &&& ti.wf()
                    &&& forall|k: int|
                        0 <= k < ti.inner@.len() ==> base.len() <= (
                        #[trigger] ti.inner@[k]).1 as int
                    &&& base.len() <= ti.index_start_offset as int
                    &&& blocks_hold_chunks(
                        final(out)@,
                        ti.inner@,
                        ti.index_start_offset as int,
                        types_g,
                        algorithm,
                        deep,
                        rows_per_index as int,
                    )
                    &&& table_installed(
                        final(out)@,
                        lo,
                        ti.index_start_offset as int,
                        types_g,
                        algorithm,
                        deep,
                    )
                },
                Err(e) => (e is OutOfRange && table_buildable(
                    deep,
                    types_g,
                    rows_per_index as int,
                ) && final(out)@.len() + 29 + 18 * ((deep.len() + rows_per_index - 1) as int / (
                rows_per_index as int)) > usize::MAX),
            },
    {
        let ghost rpi = rows_per_index as int;
        proof {
            vstd::arithmetic::mul::lemma_mul_basics(rpi);
            assert(entries@.len() >= 1);
            assert(deep.len() <= entries@.len() * rpi);
            assert(block_conforms(deep, types_g));
            assert(chunk_buildable(deep, types_g));
            assert(table_buildable(deep, types_g, rpi));
        }
        let r = Self::finish_table(
            out,
            rows,
            entries,
            algorithm,
            Ghost(base),
            Ghost(deep),
            Ghost(rpi),
            Ghost(types_g),
        );
        match r {
            Ok(ti) => {
                proof {
                    lemma_build_gives_installed(
                        out@,
                        base.len() as int,
                        lo,
                        ti@,
                        types_g,
                        algorithm,
                        deep,
                    );
                }
                Ok(ti)
            },
            Err(e) => Err(e),
        }
    }

    /// Build one table onto `out`: cut the sorted rows into blocks of
    /// `rows_per_index`, compress each block, then append the table's
    /// index.  Succeeds exactly when the rows can make a table (or fails
    /// with `OutOfRange` at the edge of the address space); on success
    /// the bytes now describe a well-formed table holding exactly `rows`,
    /// whose index has one entry per block and parses back to the
    /// returned value.
    /// Serialize and compress one block of rows, recording its index
    /// entry.
    #[verifier::rlimit(100)]
    #[verifier::spinoff_prover]
    fn build_one_block(
        out: &mut Vec<u8>,
        types: &Vec<ColumnType>,
        rows: &Vec<Row>,
        from: usize,
        to: usize,
        entries: &mut Vec<(u64, u64)>,
        algorithm: CompressionAlgorithm,
        Ghost(base_len): Ghost<int>,
        Ghost(deep): Ghost<Seq<Seq<CellModel>>>,
        Ghost(rpi): Ghost<int>,
    ) -> (r: Result<(), DbError>)
        requires
            deep == rows.deep_view(),
            rpi >= 1,
            types@.len() >= 1,
            types@[0] == ColumnType::Integer,
            from < to <= rows@.len(),
            from as int == old(entries)@.len() * rpi,
            to as int == (if (old(entries)@.len() + 1) * rpi < deep.len() {
                (old(entries)@.len() + 1) * rpi
            } else {
                deep.len() as int
            }),
            0 <= base_len <= old(out)@.len(),
            forall|i: int|
                0 <= i < deep.len() ==> (#[trigger] deep[i]).len() >= 1 && deep[i][0] is Int
                    && row_pos(deep[i]) >= 0,
            blocks_laid_out(old(out)@, base_len, old(entries)@, deep, rpi, algorithm),
        ensures
            match r {
                Ok(()) => {
                    &&& final(entries)@ == old(entries)@.push(
                        ((deep[from as int][0]->Int_0) as u64, old(out)@.len() as u64),
                    )
                    &&& final(out)@.len() >= old(out)@.len()
                    &&& final(out)@.subrange(0, old(out)@.len() as int) == old(out)@
                    &&& blocks_laid_out(
                        final(out)@,
                        base_len,
                        final(entries)@,
                        deep,
                        rpi,
                        algorithm,
                    )
                    &&& forall|i: int|
                        from <= i < to ==> row_conforms(#[trigger] deep[i], types@)
                },
                Err(e) => e is ValidationError && !chunk_buildable(deep, types@),
            },
    {
        let ghost k_old = entries@.len() as int;
        let ghost chunk = deep.subrange(from as int, to as int);
        proof {
            assert((k_old + 1) * rpi == k_old * rpi + rpi) by {
                lemma_mul_is_distributive_add_other_way(rpi, k_old, 1);
            };
            assert(chunk =~= chunk_of(deep, rpi, k_old));
        }
        let first_p: i64 = match &rows[from][0] {
            CellValue::Integer(v) => *v,
            CellValue::Float(_) => {
                proof {
                    assert(deep[from as int][0] is Int);
                    assert(deep[from as int] == rows@[from as int].deep_view());
                    assert(false);
                }
                return Err(DbError::ValidationError(String::from_str("the leading cell is checked to be an integer")));
            },
            CellValue::Text(_) => {
                proof {
                    assert(deep[from as int][0] is Int);
                    assert(deep[from as int] == rows@[from as int].deep_view());
                    assert(false);
                }
                return Err(DbError::ValidationError(String::from_str("the leading cell is checked to be an integer")));
            },
        };
        let entry = (first_p as u64, out.len() as u64);
        let mut compressor = RowCompressor::new();
        match Self::serialize_dataset_block(&mut compressor.buffer, types, rows, from, to) {
            Ok(()) => {},
            Err(e) => {
                proof {
                    if chunk_buildable(deep, types@) {
                        assert forall|m: int| 0 <= m < chunk.len() implies row_conforms(
                            #[trigger] chunk[m],
                            types@,
                        ) && row_pos(chunk[m]) >= 0 by {
                            assert(chunk[m] == deep[from + m]);
                        };
                        assert(chunk_buildable(chunk, types@));
                        assert(false);
                    }
                }
                return Err(e);
            },
        }
        proof {
            assert forall|i: int| from <= i < to implies row_conforms(
                #[trigger] deep[i],
                types@,
            ) by {
                assert(chunk[i - from] == deep[i]);
            };
        }
        let ghost out_prev = out@;
        compressor.compress(algorithm, out);
        proof {
            assert(compressor.buffer@ == block_bytes(chunk));
        }
        entries.push(entry);
        proof {
            assert(out@.subrange(0, old(out)@.len() as int) =~= old(out)@) by {
                lemma_subrange_stable(out_prev, out@, 0, old(out)@.len() as int);
            };
            assert(entries@[k_old].1 as int == out_prev.len() as int);
            assert(deep[from as int][0] == CellModel::Int(first_p));
            assert(entries@[k_old].0 as int == row_pos(deep[k_old * rpi]));
            lemma_blocks_step(out_prev, out@, base_len, entries@, deep, rpi, algorithm);
        }
        Ok(())
    }

    /// Append the table's on-disk index and assemble the finished table's
    /// facts.
    #[verifier::rlimit(100)]
    fn finish_table(
        out: &mut Vec<u8>,
        rows: &Vec<Row>,
        entries: Vec<(u64, u64)>,
        algorithm: CompressionAlgorithm,
        Ghost(base): Ghost<Seq<u8>>,
        Ghost(deep): Ghost<Seq<Seq<CellModel>>>,
        Ghost(rpi): Ghost<int>,
        Ghost(types_g): Ghost<Seq<ColumnType>>,
    ) -> (r: Result<TableIndex, DbError>)
        requires
            deep == rows.deep_view(),
            rpi >= 1,
            types_g.len() >= 1,
            types_g[0] == ColumnType::Integer,
            deep.len() >= 1,
            entries@.len() >= 1,
            (entries@.len() - 1) * rpi < deep.len(),
            deep.len() <= entries@.len() * rpi,
            base.len() <= old(out)@.len(),
            old(out)@.subrange(0, base.len() as int) == base,
            forall|i: int|
                0 <= i < deep.len() ==> (#[trigger] deep[i]).len() >= 1 && deep[i][0] is Int
                    && row_pos(deep[i]) >= 0,
            rows_sorted(deep),
            forall|j: int|
                0 < j < deep.len() && j % rpi == 0 ==> row_pos(deep[j - 1]) < row_pos(
                    #[trigger] deep[j],
                ),
            forall|i: int| 0 <= i < deep.len() ==> row_conforms(#[trigger] deep[i], types_g),
            blocks_laid_out(old(out)@, base.len() as int, entries@, deep, rpi, algorithm),
        ensures
            match r {
                Ok(ti) => {
                    &&& final(out)@.len() >= base.len()
                    &&& final(out)@.subrange(0, base.len() as int) == base
                    &&& forall|k: int|
                        0 <= k < ti.inner@.len() ==> base.len() <= (
                        #[trigger] ti.inner@[k]).1 as int
                    &&& base.len() <= ti.index_start_offset as int
                    &&& blocks_hold_chunks(
                        final(out)@,
                        ti.inner@,
                        ti.index_start_offset as int,
                        types_g,
                        algorithm,
                        deep,
                        rpi,
                    )
                    &&& ti.index_start_offset as int <= final(out)@.len()
                    &&& table_wf(
                        final(out)@,
                        ti.inner@,
                        ti.index_start_offset as int,
                        ti.max_position,
                        types_g,
                        algorithm,
                    )
                    &&& table_rows_of(
                        final(out)@,
                        ti.inner@,
                        ti.index_start_offset as int,
                        types_g,
                        algorithm,
                    ) == deep
                    &&& ti.inner@ == entries@
                    &&& ti.inner@.len() as int == (deep.len() + rpi - 1) / rpi
                    &&& parse_table_index(final(out)@, ti.index_start_offset as int) == Some(ti@)
                    &&& ti.index_end_offset as int == final(out)@.len()
                    &&& ti.wf()
                },
                Err(e) => {
                    &&& e is OutOfRange
                    &&& final(out)@.len() + 29 + 18 * ((deep.len() + rpi - 1) / rpi)
                        > usize::MAX
                },
            },
    {
        let ghost n = deep.len() as int;
        let nr = rows.len();
        let ghost pre_index = out@;
        let iso = out.len();
        proof {
            proof_mul_facts(rpi, entries@.len() as int);
        }
        let max_position: u64 = match &rows[nr - 1][0] {
            CellValue::Integer(v) => *v as u64,
            CellValue::Float(_) => {
                proof {
                    assert(deep[n - 1][0] is Int);
                    assert(deep[n - 1] == rows@[n - 1].deep_view());
                    assert(false);
                }
                return Err(DbError::OutOfRange(String::from_str("the leading cell is checked to be an integer")));
            },
            CellValue::Text(_) => {
                proof {
                    assert(deep[n - 1][0] is Int);
                    assert(deep[n - 1] == rows@[n - 1].deep_view());
                    assert(false);
                }
                return Err(DbError::OutOfRange(String::from_str("the leading cell is checked to be an integer")));
            },
        };
        proof {
            assert(deep[n - 1] == rows@[n - 1].deep_view());
            assert(max_position as int == row_pos(deep[n - 1]));
        }
        match Self::serialize_table_index(out, &entries, max_position) {
            Ok(()) => {},
            Err(e) => {
                proof {
                    lemma_entry_pairs_len_bound(entries@);
                    proof_mul_facts(rpi, entries@.len() as int);
                    let k = entries@.len() as int;
                    let rem = n + rpi - 1 - k * rpi;
                    assert(0 <= rem < rpi);
                    lemma_fundamental_div_mod_converse(n + rpi - 1, rpi, k, rem);
                }
                return Err(
                    DbError::OutOfRange(String::from_str("table index exceeds address space")),
                );
            },
        }
        let n_entries = entries.len();
        let out_len = out.len();
        let ti = TableIndex {
            inner: entries,
            max_position,
            index_start_offset: iso as u64,
            index_end_offset: out_len as u64,
        };
        proof {
            lemma2_to64_rest();
            assert(ti.inner@.len() == n_entries as int && (n_entries as int) < pow2(64));
            assert(out@.len() == out_len as int && (out_len as int) < pow2(64));
            lemma_finish_table_post(
                out@,
                pre_index,
                base,
                ti@,
                types_g,
                algorithm,
                deep,
                rpi,
                n,
            );
            assert(blocks_hold_chunks(
                out@,
                ti.inner@,
                ti.index_start_offset as int,
                types_g,
                algorithm,
                deep,
                rpi,
            )) by {
                reveal(blocks_hold_chunks);
            };
        }
        Ok(ti)
    }

    /// Build one table onto `out`: cut the sorted rows into blocks of
    /// `rows_per_index`, compress each block, then append the table's
    /// index.  Succeeds exactly when the rows can make a table (or fails
    /// with `OutOfRange` at the edge of the address space); on success
    /// the bytes now describe a well-formed table holding exactly `rows`,
    /// whose index has one entry per block and parses back to the
    /// returned value.
    #[verifier::rlimit(100)]
    #[verifier::spinoff_prover]
    pub fn build_table(
        out: &mut Vec<u8>,
        types: &Vec<ColumnType>,
        rows: &Vec<Row>,
        rows_per_index: usize,
        algorithm: CompressionAlgorithm,
    ) -> (r: Result<TableIndex, DbError>)
        requires
            rows_per_index >= 1,
            types@.len() >= 1,
            types@[0] == ColumnType::Integer,
        ensures
            match r {
                Ok(ti) => {
                    &&& table_buildable(rows.deep_view(), types@, rows_per_index as int)
                    &&& final(out)@.len() >= old(out)@.len()
                    &&& final(out)@.subrange(0, old(out)@.len() as int) == old(out)@
                    &&& ti.index_start_offset as int <= final(out)@.len()
                    &&& table_wf(
                        final(out)@,
                        ti.inner@,
                        ti.index_start_offset as int,
                        ti.max_position,
                        types@,
                        algorithm,
                    )
                    &&& table_rows_of(
                        final(out)@,
                        ti.inner@,
                        ti.index_start_offset as int,
                        types@,
                        algorithm,
                    ) == rows.deep_view()
                    &&& ti.inner@.len() as int == (rows@.len() + rows_per_index - 1) as int / (
                    rows_per_index as int)
                    &&& parse_table_index(final(out)@, ti.index_start_offset as int) == Some(ti@)
                    &&& ti.index_end_offset as int == final(out)@.len()
                    &&& ti.wf()
                },
                Err(e) => !table_buildable(rows.deep_view(), types@, rows_per_index as int) || e
                    is OutOfRange,
            },
    {
        let entries = match Self::build_blocks(out, types, rows, rows_per_index, algorithm) {
            Ok(es) => es,
            Err(e) => {
                return Err(e);
            },
        };
        Self::complete_table(
            out,
            rows,
            entries,
            rows_per_index,
            algorithm,
            Ghost(old(out)@),
            Ghost(rows.deep_view()),
            Ghost(types@),
            Ghost(0),
        )
    }

    /// Cut the rows into blocks of `rows_per_index` and append each,
    /// compressed, onto `out`, returning one `(first position, offset)`
    /// entry per block.
    #[verifier::rlimit(100)]
    #[verifier::spinoff_prover]
    fn build_blocks(
        out: &mut Vec<u8>,
        types: &Vec<ColumnType>,
        rows: &Vec<Row>,
        rows_per_index: usize,
        algorithm: CompressionAlgorithm,
    ) -> (r: Result<Vec<(u64, u64)>, DbError>)
        requires
            rows_per_index >= 1,
            types@.len() >= 1,
            types@[0] == ColumnType::Integer,
        ensures
            match r {
                Ok(entries) => {
                    &&& rows@.len() >= 1
                    &&& rows.deep_view().len() == rows@.len()
                    &&& (if entries@.len() * (rows_per_index as int) < rows.deep_view().len() {
                        entries@.len() * (rows_per_index as int)
                    } else {
                        rows.deep_view().len() as int
                    }) == rows.deep_view().len()
                    &&& entries@.len() >= 1
                    &&& (entries@.len() - 1) * (rows_per_index as int) < rows.deep_view().len()
                    &&& final(out)@.len() >= old(out)@.len()
                    &&& final(out)@.subrange(0, old(out)@.len() as int) == old(out)@
                    &&& entries@[0].1 as int == old(out)@.len()
                    &&& forall|i: int|
                        0 <= i < rows.deep_view().len() ==> (#[trigger] rows.deep_view()[i]).len()
                            >= 1 && rows.deep_view()[i][0] is Int && row_pos(rows.deep_view()[i])
                            >= 0
                    &&& rows_sorted(rows.deep_view())
                    &&& forall|j: int|
                        0 < j < rows.deep_view().len() && j % (rows_per_index as int) == 0
                            ==> row_pos(rows.deep_view()[j - 1]) < row_pos(
                            #[trigger] rows.deep_view()[j],
                        )
                    &&& forall|i: int|
                        0 <= i < rows.deep_view().len() ==> row_conforms(
                            #[trigger] rows.deep_view()[i],
                            types@,
                        )
                    &&& blocks_laid_out(
                        final(out)@,
                        old(out)@.len() as int,
                        entries@,
                        rows.deep_view(),
                        rows_per_index as int,
                        algorithm,
                    )
                },
                Err(e) => e is ValidationError && !table_buildable(
                    rows.deep_view(),
                    types@,
                    rows_per_index as int,
                ),
            },
    {
        let ghost deep = rows.deep_view();
        let ghost rpi = rows_per_index as int;
        match Self::check_table_rows(rows, types, rows_per_index) {
            Ok(()) => {},
            Err(e) => {
                return Err(e);
            },
        }
        let n = rows.len();
        let mut entries: Vec<(u64, u64)> = Vec::new();
        let mut from: usize = 0;
        proof {
            vstd::arithmetic::mul::lemma_mul_basics(rpi);
        }
        while from < n
            invariant
                n == rows@.len(),
                n >= 1,
                deep == rows.deep_view(),
                deep.len() == n,
                rpi == rows_per_index as int,
                rows_per_index >= 1,
                types@.len() >= 1,
                types@[0] == ColumnType::Integer,
                0 <= from <= n,
                from as int == (if entries@.len() * rpi < n { entries@.len() * rpi } else { n as int }),
                entries@.len() >= 1 ==> (entries@.len() - 1) * rpi < n,
                from < n ==> from as int == entries@.len() * rpi,
                out@.len() >= old(out)@.len(),
                out@.subrange(0, old(out)@.len() as int) == old(out)@,
                entries@.len() == 0 ==> out@.len() == old(out)@.len(),
                entries@.len() >= 1 ==> (#[trigger] entries@[0]).1 as int == old(out)@.len(),
                forall|i: int|
                    0 <= i < deep.len() ==> (#[trigger] deep[i]).len() >= 1 && deep[i][0] is Int
                        && row_pos(deep[i]) >= 0,
                rows_sorted(deep),
                forall|j: int|
                    0 < j < deep.len() && j % rpi == 0 ==> row_pos(deep[j - 1]) < row_pos(
                        #[trigger] deep[j],
                    ),
                forall|i: int| 0 <= i < from ==> row_conforms(#[trigger] deep[i], types@),
                blocks_laid_out(out@, old(out)@.len() as int, entries@, deep, rpi, algorithm),
            decreases n - from,
        {
            let to = if n - from < rows_per_index {
                n
            } else {
                from + rows_per_index
            };
            proof {
                assert((entries@.len() + 1) * rpi == entries@.len() * rpi + rpi) by {
                    lemma_mul_is_distributive_add_other_way(rpi, entries@.len() as int, 1);
                };
            }
            match Self::build_one_block(
                out,
                types,
                rows,
                from,
                to,
                &mut entries,
                algorithm,
                Ghost(old(out)@.len() as int),
                Ghost(deep),
                Ghost(rpi),
            ) {
                Ok(()) => {},
                Err(e) => {
                    return Err(e);
                },
            }
            from = to;
        }
        proof {
            vstd::arithmetic::mul::lemma_mul_basics(rpi);
            assert(entries@.len() >= 1);
        }
        Ok(entries)
    }
}

/// Appending one compressed block onto the file keeps every earlier
/// block's facts and adds the new block's.
proof fn lemma_blocks_step(
    out_old: Seq<u8>,
    out_new: Seq<u8>,
    base_len: int,
    entries: Seq<(u64, u64)>,
    deep: Seq<Seq<CellModel>>,
    rpi: int,
    algo: CompressionAlgorithm,
)
    requires
        rpi >= 1,
        entries.len() >= 1,
        out_old.len() <= out_new.len(),
        out_new.subrange(0, out_old.len() as int) == out_old,
        0 <= base_len <= out_old.len(),
        decompress_of(algo, out_new.subrange(out_old.len() as int, out_new.len() as int)) == Some(
            block_bytes(chunk_of(deep, rpi, entries.len() - 1)),
        ),
        entries[entries.len() - 1].1 as int == out_old.len(),
        entries[entries.len() - 1].0 as int == row_pos(deep[(entries.len() - 1) * rpi]),
        blocks_laid_out(out_old, base_len, entries.drop_last(), deep, rpi, algo),
    ensures
        blocks_laid_out(out_new, base_len, entries, deep, rpi, algo),
{
    let klast = entries.len() - 1;
    let prev = entries.drop_last();
    assert forall|m: int| 0 <= m < entries.len() implies {
        let start = (#[trigger] entries[m]).1 as int;
        let end = if m + 1 < entries.len() {
            entries[m + 1].1 as int
        } else {
            out_new.len() as int
        };
        &&& base_len <= start <= end <= out_new.len()
        &&& decompress_of(algo, out_new.subrange(start, end)) == Some(
            block_bytes(chunk_of(deep, rpi, m)),
        )
        &&& entries[m].0 as int == row_pos(deep[m * rpi])
    } by {
        if m < klast {
            assert(prev[m] == entries[m]);
            let start = entries[m].1 as int;
            let end = if m + 1 < klast {
                entries[m + 1].1 as int
            } else {
                out_old.len() as int
            };
            assert(m + 1 < klast ==> prev[m + 1] == entries[m + 1]);
            lemma_subrange_stable(out_old, out_new, start, end);
            if m + 1 == klast {
                assert(entries[m + 1].1 as int == out_old.len() as int);
            }
        } else {
            assert(m == klast);
        }
    };
}

/// Assemble the final facts of a finished table: a sorted index that
/// parses back, well-formed blocks, and rows that concatenate to the
/// input.
#[verifier::rlimit(100)]
#[verifier::spinoff_prover]
proof fn lemma_build_finish(
    file: Seq<u8>,
    pre_index: Seq<u8>,
    base: Seq<u8>,
    entries: Seq<(u64, u64)>,
    iso: int,
    maxpos: u64,
    types: Seq<ColumnType>,
    algo: CompressionAlgorithm,
    deep: Seq<Seq<CellModel>>,
    rpi: int,
    n: int,
)
    requires
        rpi >= 1,
        n == deep.len(),
        n >= 1,
        entries.len() >= 1,
        (entries.len() - 1) * rpi < n,
        n <= entries.len() * rpi,
        types.len() >= 1,
        types[0] == ColumnType::Integer,
        iso == pre_index.len(),
        file == pre_index + index_bytes(entries, maxpos, iso),
        base.len() <= pre_index.len(),
        pre_index.subrange(0, base.len() as int) == base,
        entries.len() < pow2(64),
        file.len() < pow2(64),
        maxpos as int == row_pos(deep[n - 1]),
        rows_sorted(deep),
        forall|j: int|
            0 < j < n && j % rpi == 0 ==> row_pos(deep[j - 1]) < row_pos(#[trigger] deep[j]),
        forall|i: int| 0 <= i < n ==> row_conforms(#[trigger] deep[i], types),
        forall|i: int|
            0 <= i < n ==> (#[trigger] deep[i]).len() >= 1 && deep[i][0] is Int && row_pos(deep[i])
                >= 0,
        blocks_laid_out(pre_index, base.len() as int, entries, deep, rpi, algo),
    ensures
        entries_sorted(entries),
        file.len() == iso + 29 + entry_pairs_bytes(entries).len(),
        parse_table_index(file, iso) == Some(
            TableIndexModel {
                entries: entries,
                max_position: maxpos,
                index_start_offset: iso as u64,
                index_end_offset: (iso + 29 + entry_pairs_bytes(entries).len()) as u64,
            },
        ),
        table_wf(file, entries, iso, maxpos, types, algo),
        table_rows_of(file, entries, iso, types, algo) == deep,
        forall|m: int|
            0 <= m < entries.len() ==> #[trigger] tbl_block_rows(file, entries, iso, types, algo, m)
                == chunk_of(deep, rpi, m),
        entries.len() as int == (n + rpi - 1) / rpi,
        file.subrange(0, base.len() as int) == base,
        file.len() >= pre_index.len(),
{
    let k = entries.len() as int;
    // entry positions are strictly increasing
    assert forall|a: int, c: int| 0 <= a < c < entries.len() implies (#[trigger] entries[a]).0 < (
    #[trigger] entries[c]).0 by {
        lemma_entry_keys_increase(deep, rpi, entries, a, c);
    };
    assert(entries_sorted(entries));
    lemma_finish_index(file, pre_index, entries, iso, maxpos);
    lemma_subrange_stable(pre_index, file, 0, base.len() as int);
    lemma_finish_wf(file, pre_index, base, entries, iso, maxpos, types, algo, deep, rpi, n);
    // the count is the ceiling of rows over block size
    assert(k * rpi == (k - 1) * rpi + rpi) by {
        lemma_mul_is_distributive_add_other_way(rpi, k - 1, 1);
    };
    let rem = n + rpi - 1 - k * rpi;
    assert(0 <= rem < rpi);
    lemma_fundamental_div_mod_converse(n + rpi - 1, rpi, k, rem);
}

/// The appended index parses back to its model.
#[verifier::rlimit(100)]
#[verifier::spinoff_prover]
proof fn lemma_finish_index(
    file: Seq<u8>,
    pre_index: Seq<u8>,
    entries: Seq<(u64, u64)>,
    iso: int,
    maxpos: u64,
)
    requires
        iso == pre_index.len(),
        file == pre_index + index_bytes(entries, maxpos, iso),
        entries.len() < pow2(64),
        file.len() < pow2(64),
    ensures
        file.len() == iso + 29 + entry_pairs_bytes(entries).len(),
        file.len() >= pre_index.len(),
        file.subrange(0, pre_index.len() as int) == pre_index,
        parse_table_index(file, iso) == Some(
            TableIndexModel {
                entries: entries,
                max_position: maxpos,
                index_start_offset: iso as u64,
                index_end_offset: (iso + 29 + entry_pairs_bytes(entries).len()) as u64,
            },
        ),
{
    let ib = index_bytes(entries, maxpos, iso);
    lemma_be_bytes_len(maxpos as int, 8);
    lemma_be_bytes_len(iso + 29 + entry_pairs_bytes(entries).len(), 8);
    lemma_be_bytes_len(entries.len() as int, 8);
    assert(ib.len() == 29 + entry_pairs_bytes(entries).len());
    assert(file.subrange(iso, iso + ib.len()) =~= ib);
    assert(file.subrange(0, pre_index.len() as int) =~= pre_index);
    lemma_index_round_trip(file, iso, entries, maxpos);
}

/// The well-formedness half of the finish: the blocks are well formed
/// and concatenate back to the rows.
#[verifier::rlimit(100)]
proof fn lemma_finish_wf(
    file: Seq<u8>,
    pre_index: Seq<u8>,
    base: Seq<u8>,
    entries: Seq<(u64, u64)>,
    iso: int,
    maxpos: u64,
    types: Seq<ColumnType>,
    algo: CompressionAlgorithm,
    deep: Seq<Seq<CellModel>>,
    rpi: int,
    n: int,
)
    requires
        rpi >= 1,
        n == deep.len(),
        n >= 1,
        entries.len() >= 1,
        entries_sorted(entries),
        (entries.len() - 1) * rpi < n,
        n <= entries.len() * rpi,
        types.len() >= 1,
        types[0] == ColumnType::Integer,
        iso == pre_index.len(),
        pre_index.len() <= file.len(),
        file.subrange(0, pre_index.len() as int) == pre_index,
        maxpos as int == row_pos(deep[n - 1]),
        rows_sorted(deep),
        forall|j: int|
            0 < j < n && j % rpi == 0 ==> row_pos(deep[j - 1]) < row_pos(#[trigger] deep[j]),
        forall|i: int| 0 <= i < n ==> row_conforms(#[trigger] deep[i], types),
        forall|i: int|
            0 <= i < n ==> (#[trigger] deep[i]).len() >= 1 && deep[i][0] is Int && row_pos(deep[i])
                >= 0,
        blocks_laid_out(pre_index, base.len() as int, entries, deep, rpi, algo),
        base.len() >= 0,
    ensures
        table_wf(file, entries, iso, maxpos, types, algo),
        table_rows_of(file, entries, iso, types, algo) == deep,
        forall|m: int|
            0 <= m < entries.len() ==> #[trigger] tbl_block_rows(file, entries, iso, types, algo, m)
                == chunk_of(deep, rpi, m),
{
    let k = entries.len() as int;
    proof_mul_facts(rpi, k);
    lemma_all_blocks(file, pre_index, base.len() as int, entries, iso, types, algo, deep, rpi, n);
    assert forall|m: int| 0 <= m < entries.len() implies tbl_block_wf(
        file,
        entries,
        iso,
        types,
        algo,
        m,
    ) by {
        assert(tbl_block_rows(file, entries, iso, types, algo, m) == chunk_of(deep, rpi, m));
    };
    // the blocks concatenate back to the rows
    lemma_built_rows(file, entries, iso, types, algo, deep, rpi, 0);
    assert(deep.subrange(0, n) =~= deep);
    assert(table_rows_of(file, entries, iso, types, algo) == deep);
    // the recorded maximum is the last row's position
    let last_chunk = chunk_of(deep, rpi, k - 1);
    assert(last_chunk.last() == deep[n - 1]);
    assert(tbl_block_rows(file, entries, iso, types, algo, k - 1) == last_chunk);
    assert(table_wf(file, entries, iso, maxpos, types, algo));
}

/// All built blocks are well formed and parse back to their chunks.
#[verifier::rlimit(100)]
#[verifier::spinoff_prover]
proof fn lemma_all_blocks(
    file: Seq<u8>,
    pre_index: Seq<u8>,
    base_len: int,
    entries: Seq<(u64, u64)>,
    iso: int,
    types: Seq<ColumnType>,
    algo: CompressionAlgorithm,
    deep: Seq<Seq<CellModel>>,
    rpi: int,
    n: int,
)
    requires
        rpi >= 1,
        n == deep.len(),
        n >= 1,
        entries.len() >= 1,
        (entries.len() - 1) * rpi < n,
        n <= entries.len() * rpi,
        types.len() >= 1,
        types[0] == ColumnType::Integer,
        iso == pre_index.len(),
        pre_index.len() <= file.len(),
        file.subrange(0, pre_index.len() as int) == pre_index,
        rows_sorted(deep),
        forall|j: int|
            0 < j < n && j % rpi == 0 ==> row_pos(deep[j - 1]) < row_pos(#[trigger] deep[j]),
        forall|i: int| 0 <= i < n ==> row_conforms(#[trigger] deep[i], types),
        forall|i: int|
            0 <= i < n ==> (#[trigger] deep[i]).len() >= 1 && deep[i][0] is Int && row_pos(deep[i])
                >= 0,
        0 <= base_len,
        blocks_laid_out(pre_index, base_len, entries, deep, rpi, algo),
    ensures
        forall|m: int|
            0 <= m < entries.len() ==> tbl_block_wf(file, entries, iso, types, algo, m) && (
            #[trigger] tbl_block_rows(file, entries, iso, types, algo, m)) == chunk_of(
                deep,
                rpi,
                m,
            ),
{
    assert forall|m: int| 0 <= m < entries.len() implies tbl_block_wf(
        file,
        entries,
        iso,
        types,
        algo,
        m,
    ) && (#[trigger] tbl_block_rows(file, entries, iso, types, algo, m)) == chunk_of(
        deep,
        rpi,
        m,
    ) by {
        lemma_built_block_wf(
            file,
            pre_index,
            base_len,
            entries,
            iso,
            types,
            algo,
            deep,
            rpi,
            m,
            n,
        );
    };
}

/// Keys of distinct blocks differ: the first positions strictly increase
/// because rows are sorted and strictly increase at block boundaries.
proof fn lemma_entry_keys_increase(
    deep: Seq<Seq<CellModel>>,
    rpi: int,
    entries: Seq<(u64, u64)>,
    a: int,
    c: int,
)
    requires
        rpi >= 1,
        0 <= a < c < entries.len(),
        entries.len() >= 1,
        (entries.len() - 1) * rpi < deep.len(),
        rows_sorted(deep),
        forall|j: int|
            0 < j < deep.len() && j % rpi == 0 ==> row_pos(deep[j - 1]) < row_pos(
                #[trigger] deep[j],
            ),
        forall|m: int|
            0 <= m < entries.len() ==> (#[trigger] entries[m]).0 as int == row_pos(deep[m * rpi]),
        forall|i: int| 0 <= i < deep.len() ==> row_pos(#[trigger] deep[i]) >= 0,
    ensures
        (entries[a]).0 < (entries[c]).0,
    decreases c - a,
{
    if a + 1 == c {
        let j = c * rpi;
        assert(j < deep.len()) by {
            lemma_mul_inequality(c, entries.len() - 1, rpi);
        };
        assert(j % rpi == 0) by {
            lemma_mod_multiples_basic(c, rpi);
        };
        assert(a * rpi <= j - 1) by {
            assert(c * rpi == a * rpi + rpi) by {
                lemma_mul_is_distributive_add_other_way(rpi, a, 1);
            };
        };
        assert(row_pos(deep[a * rpi]) <= row_pos(deep[j - 1]));
        assert(row_pos(deep[j - 1]) < row_pos(deep[j]));
    } else {
        lemma_entry_keys_increase(deep, rpi, entries, a, c - 1);
        lemma_entry_keys_increase(deep, rpi, entries, c - 1, c);
    }
}

/// The rows of one chunk stay inside its key interval.
proof fn lemma_chunk_bounds(
    entries: Seq<(u64, u64)>,
    deep: Seq<Seq<CellModel>>,
    rpi: int,
    m: int,
    n: int,
)
    requires
        rpi >= 1,
        0 <= m < entries.len(),
        n == deep.len(),
        (entries.len() - 1) * rpi < n,
        rows_sorted(deep),
        forall|j: int|
            0 < j < n && j % rpi == 0 ==> row_pos(deep[j - 1]) < row_pos(#[trigger] deep[j]),
        forall|t: int|
            0 <= t < entries.len() ==> (#[trigger] entries[t]).0 as int == row_pos(deep[t * rpi]),
    ensures
        forall|j: int|
            0 <= j < chunk_of(deep, rpi, m).len() ==> entries[m].0 as int <= row_pos(
                #[trigger] chunk_of(deep, rpi, m)[j],
            ) && (m + 1 < entries.len() ==> row_pos(chunk_of(deep, rpi, m)[j]) < entries[m
                + 1].0 as int),
{
    let chunk = chunk_of(deep, rpi, m);
    let a = m * rpi;
    assert((m + 1) * rpi == a + rpi) by {
        lemma_mul_is_distributive_add_other_way(rpi, m, 1);
    };
    assert(a < n) by {
        lemma_mul_inequality(m, entries.len() - 1, rpi);
    };
    assert forall|j: int| 0 <= j < chunk.len() implies entries[m].0 as int <= row_pos(
        #[trigger] chunk[j],
    ) && (m + 1 < entries.len() ==> row_pos(chunk[j]) < entries[m + 1].0 as int) by {
        assert(chunk[j] == deep[a + j]);
        assert(row_pos(deep[a]) <= row_pos(deep[a + j]));
        if m + 1 < entries.len() {
            let boundary = (m + 1) * rpi;
            assert(boundary < n) by {
                lemma_mul_inequality(m + 1, entries.len() - 1, rpi);
            };
            assert(boundary % rpi == 0) by {
                lemma_mod_multiples_basic(m + 1, rpi);
            };
            assert(row_pos(deep[boundary - 1]) < row_pos(deep[boundary]));
            assert(a + j <= boundary - 1);
            assert(row_pos(deep[a + j]) <= row_pos(deep[boundary - 1]));
            assert(entries[m + 1].0 as int == row_pos(deep[boundary]));
        }
    };
}

/// Each built block is well formed in the final bytes and parses back to
/// its chunk of rows.
#[verifier::rlimit(100)]
#[verifier::spinoff_prover]
proof fn lemma_built_block_wf(
    file: Seq<u8>,
    pre_index: Seq<u8>,
    base_len: int,
    entries: Seq<(u64, u64)>,
    iso: int,
    types: Seq<ColumnType>,
    algo: CompressionAlgorithm,
    deep: Seq<Seq<CellModel>>,
    rpi: int,
    m: int,
    n: int,
)
    requires
        rpi >= 1,
        0 <= m < entries.len(),
        entries.len() >= 1,
        n == deep.len(),
        (entries.len() - 1) * rpi < n,
        n <= entries.len() * rpi,
        types.len() >= 1,
        types[0] == ColumnType::Integer,
        iso == pre_index.len(),
        pre_index.len() <= file.len(),
        file.subrange(0, pre_index.len() as int) == pre_index,
        rows_sorted(deep),
        forall|j: int|
            0 < j < n && j % rpi == 0 ==> row_pos(deep[j - 1]) < row_pos(#[trigger] deep[j]),
        forall|i: int| 0 <= i < n ==> row_conforms(#[trigger] deep[i], types),
        forall|i: int|
            0 <= i < n ==> (#[trigger] deep[i]).len() >= 1 && deep[i][0] is Int && row_pos(deep[i])
                >= 0,
        0 <= base_len,
        blocks_laid_out(pre_index, base_len, entries, deep, rpi, algo),
    ensures
        tbl_block_wf(file, entries, iso, types, algo, m),
        tbl_block_rows(file, entries, iso, types, algo, m) == chunk_of(deep, rpi, m),
{
    let start = tbl_block_start(entries, m);
    let end = tbl_block_end(entries, iso, m);
    let chunk = chunk_of(deep, rpi, m);
    assert(start == entries[m].1 as int);
    assert(end == if m + 1 < entries.len() {
        entries[m + 1].1 as int
    } else {
        pre_index.len() as int
    });
    lemma_subrange_stable(pre_index, file, start, end);
    assert(tbl_compressed_block(file, entries, iso, m) == pre_index.subrange(start, end));
    assert(decompress_of(algo, tbl_compressed_block(file, entries, iso, m)) == Some(
        block_bytes(chunk),
    ));
    let data = tbl_block_data(file, entries, iso, algo, m);
    assert(data == block_bytes(chunk));
    // the chunk's bounds inside the row list
    let a = m * rpi;
    assert((m + 1) * rpi == a + rpi) by {
        lemma_mul_is_distributive_add_other_way(rpi, m, 1);
    };
    assert(a < n) by {
        lemma_mul_inequality(m, entries.len() - 1, rpi);
    };
    assert(chunk.len() >= 1);
    assert(forall|i: int| 0 <= i < chunk.len() ==> #[trigger] chunk[i] == deep[a + i]);
    assert(block_conforms(chunk, types));
    assert(rows_sorted(chunk));
    assert(data.subrange(0, data.len() as int) =~= data);
    lemma_block_round_trip(chunk, types, data, 0, full_scan_start(), full_scan_end());
    lemma_rows_in_range_full(chunk, types);
    assert(parse_range(types, data, 0, full_scan_start(), full_scan_end()) == Some(chunk));
    assert(tbl_block_rows(file, entries, iso, types, algo, m) == chunk);
    assert(row_pos(chunk.first()) == entries[m].0 as int);
    // rows stay inside the block's key interval
    lemma_chunk_bounds(entries, deep, rpi, m, n);
}

/// Products of the block size that the finish lemmas lean on.
proof fn proof_mul_facts(rpi: int, k: int)
    requires
        rpi >= 1,
        k >= 1,
    ensures
        0 * rpi == 0,
        k * rpi == (k - 1) * rpi + rpi,
        1 * rpi == rpi,
{
    vstd::arithmetic::mul::lemma_mul_basics(rpi);
    lemma_mul_is_distributive_add_other_way(rpi, k - 1, 1);
}

/// Everything [`lemma_build_finish`] gives, restated over a parsed
/// index model for the finished bytes.
#[verifier::rlimit(100)]
proof fn lemma_finish_table_post(
    file: Seq<u8>,
    pre_index: Seq<u8>,
    base: Seq<u8>,
    ti: TableIndexModel,
    types: Seq<ColumnType>,
    algo: CompressionAlgorithm,
    deep: Seq<Seq<CellModel>>,
    rpi: int,
    n: int,
)
    requires
        rpi >= 1,
        n == deep.len(),
        n >= 1,
        ti.entries.len() >= 1,
        (ti.entries.len() - 1) * rpi < n,
        n <= ti.entries.len() * rpi,
        types.len() >= 1,
        types[0] == ColumnType::Integer,
        ti.index_start_offset as int == pre_index.len(),
        file == pre_index + index_bytes(ti.entries, ti.max_position, pre_index.len() as int),
        base.len() <= pre_index.len(),
        pre_index.subrange(0, base.len() as int) == base,
        ti.entries.len() < pow2(64),
        file.len() < pow2(64),
        ti.index_end_offset as int == file.len(),
        ti.max_position as int == row_pos(deep[n - 1]),
        rows_sorted(deep),
        forall|j: int|
            0 < j < n && j % rpi == 0 ==> row_pos(deep[j - 1]) < row_pos(#[trigger] deep[j]),
        forall|i: int| 0 <= i < n ==> row_conforms(#[trigger] deep[i], types),
        forall|i: int|
            0 <= i < n ==> (#[trigger] deep[i]).len() >= 1 && deep[i][0] is Int && row_pos(deep[i])
                >= 0,
        blocks_laid_out(pre_index, base.len() as int, ti.entries, deep, rpi, algo),
    ensures
        file.len() >= base.len(),
        file.subrange(0, base.len() as int) == base,
        ti.index_start_offset as int <= file.len(),
        table_wf(file, ti.entries, ti.index_start_offset as int, ti.max_position, types, algo),
        table_rows_of(file, ti.entries, ti.index_start_offset as int, types, algo) == deep,
        forall|m: int|
            0 <= m < ti.entries.len() ==> #[trigger] tbl_block_rows(
                file,
                ti.entries,
                ti.index_start_offset as int,
                types,
                algo,
                m,
            ) == chunk_of(deep, rpi, m),
        ti.entries.len() as int == (n + rpi - 1) / rpi,
        parse_table_index(file, ti.index_start_offset as int) == Some(ti),
        entries_sorted(ti.entries),
{
    let iso = pre_index.len() as int;
    proof_mul_facts(rpi, ti.entries.len() as int);
    lemma_build_finish(
        file,
        pre_index,
        base,
        ti.entries,
        iso,
        ti.max_position,
        types,
        algo,
        deep,
        rpi,
        n,
    );
    assert(parse_table_index(file, iso) == Some(ti));
}

/// The bytes of one column header: a type tag, a name length, the name.
pub open spec fn column_header_bytes(c: Column) -> Seq<u8> {
    seq![crate::config::type_tag(c.type_), (encode_utf8(c.name@).len() as u8)] + encode_utf8(
        c.name@,
    )
}

/// The bytes of a run of column headers.
pub open spec fn columns_bytes_spec(cs: Seq<Column>) -> Seq<u8>
    decreases cs.len(),
{
    if cs.len() == 0 {
        Seq::empty()
    } else {
        column_header_bytes(cs.first()) + columns_bytes_spec(cs.drop_first())
    }
}

/// The bytes of the per-chromosome table pointers: a chromosome byte and
/// an 8-byte big-endian offset each.
pub open spec fn chrom_pairs_bytes(ps: Seq<(u8, u64)>) -> Seq<u8>
    decreases ps.len(),
{
    if ps.len() == 0 {
        Seq::empty()
    } else {
        seq![ps.first().0] + be_bytes(ps.first().1 as int, 8) + chrom_pairs_bytes(ps.drop_first())
    }
}

/// The bytes of one dataset header.
pub open spec fn dataset_header_bytes(name: Seq<char>, cs: Seq<Column>, ps: Seq<(u8, u64)>) -> Seq<
    u8,
> {
    seq![(encode_utf8(name).len() as u8)] + encode_utf8(name) + seq![(cs.len() as u8)]
        + columns_bytes_spec(cs) + seq![(ps.len() as u8)] + chrom_pairs_bytes(ps)
}

/// The bytes of the dataset headers from `i` on.
pub open spec fn datasets_header_bytes(ds: Seq<Dataset>, offs: Seq<Seq<(u8, u64)>>, i: int) -> Seq<
    u8,
>
    decreases ds.len() - i,
{
    if i < 0 || i >= ds.len() {
        Seq::empty()
    } else {
        dataset_header_bytes(ds[i].metadata->Some_0.name@, ds[i].columns@, offs[i])
            + datasets_header_bytes(ds, offs, i + 1)
    }
}

/// The bytes of the whole database header: the magic, the version byte,
/// the dataset count and the dataset headers.
pub open spec fn db_header_bytes(ds: Seq<Dataset>, offs: Seq<Seq<(u8, u64)>>) -> Seq<u8> {
    crate::query::header_magic() + seq![1u8, (ds.len() as u8)] + datasets_header_bytes(ds, offs, 0)
}

/// The header can be serialized: every count and name fits one byte and
/// every dataset carries its name.
pub open spec fn header_serializable(ds: Seq<Dataset>, offs: Seq<Seq<(u8, u64)>>) -> bool {
    &&& ds.len() <= 255
    &&& offs.len() == ds.len()
    &&& forall|i: int|
        0 <= i < ds.len() ==> {
            &&& (#[trigger] ds[i]).metadata is Some
            &&& encode_utf8(ds[i].metadata->Some_0.name@).len() <= 255
            &&& ds[i].columns@.len() <= 255
            &&& offs[i].len() <= 255
            &&& forall|j: int|
                0 <= j < ds[i].columns@.len() ==> encode_utf8(
                    (#[trigger] ds[i].columns@[j]).name@,
                ).len() <= 255
        }
}

impl Database {
    /// Append one column header.
    pub fn serialize_column_header(bytes: &mut Vec<u8>, column: &Column) -> (r: Result<(), DbError>)
        ensures
            match r {
                Ok(()) => final(bytes)@ == old(bytes)@ + column_header_bytes(*column)
                    && encode_utf8(column.name@).len() <= 255,
                Err(e) => encode_utf8(column.name@).len() > 255 && e is ValidationError,
            },
    {
        let mut name_bytes = column.name.as_str().as_bytes_vec();
        if name_bytes.len() > 255 {
            return Err(
                DbError::ValidationError(String::from_str("column name is too long (max 255 bytes)")),
            );
        }
        bytes.push(column.type_.to_u8());
        bytes.push(name_bytes.len() as u8);
        let ghost nb = name_bytes@;
        bytes.append(&mut name_bytes);
        proof {
            assert(bytes@ =~= old(bytes)@ + column_header_bytes(*column));
        }
        Ok(())
    }

    /// Append one dataset header, pointing each chromosome at the given
    /// table index offset.
    pub fn serialize_dataset_header(bytes: &mut Vec<u8>, dataset: &Dataset, offsets: &Vec<(u8, u64)>) -> (r:
        Result<(), DbError>)
        requires
            dataset.metadata is Some,
        ensures
            match r {
                Ok(()) => {
                    &&& final(bytes)@ == old(bytes)@ + dataset_header_bytes(
                        dataset.metadata->Some_0.name@,
                        dataset.columns@,
                        offsets@,
                    )
                    &&& encode_utf8(dataset.metadata->Some_0.name@).len() <= 255
                    &&& dataset.columns@.len() <= 255
                    &&& offsets@.len() <= 255
                    &&& forall|j: int|
                        0 <= j < dataset.columns@.len() ==> encode_utf8(
                            (#[trigger] dataset.columns@[j]).name@,
                        ).len() <= 255
                },
                Err(e) => e is ValidationError && !({
                    &&& encode_utf8(dataset.metadata->Some_0.name@).len() <= 255
                    &&& dataset.columns@.len() <= 255
                    &&& offsets@.len() <= 255
                    &&& forall|j: int|
                        0 <= j < dataset.columns@.len() ==> encode_utf8(
                            (#[trigger] dataset.columns@[j]).name@,
                        ).len() <= 255
                }),
            },
    {
        let name = match &dataset.metadata {
            Some(m) => &m.name,
            None => {
                proof {
                    assert(false);
                }
                return Err(DbError::ValidationError(String::from_str("the leading cell is checked to be an integer")));
            },
        };
        let mut name_bytes = name.as_str().as_bytes_vec();
        if name_bytes.len() > 255 {
            return Err(
                DbError::ValidationError(
                    String::from_str("dataset name is too long (max 255 bytes)"),
                ),
            );
        }
        if dataset.columns.len() > 255 {
            return Err(
                DbError::ValidationError(String::from_str("too many columns (max 255)")),
            );
        }
        if offsets.len() > 255 {
            return Err(
                DbError::ValidationError(String::from_str("too many files for a dataset (max 255)")),
            );
        }
        bytes.push(name_bytes.len() as u8);
        bytes.append(&mut name_bytes);
        bytes.push(dataset.columns.len() as u8);
        let ghost after_name = bytes@;
        let mut i: usize = 0;
        proof {
            assert(columns_bytes_spec(dataset.columns@.skip(0)) == columns_bytes_spec(
                dataset.columns@,
            )) by {
                assert(dataset.columns@.skip(0) =~= dataset.columns@);
            };
        }
        while i < dataset.columns.len()
            invariant
                i <= dataset.columns@.len(),
                bytes@ + columns_bytes_spec(dataset.columns@.skip(i as int)) == after_name
                    + columns_bytes_spec(dataset.columns@),
                forall|j: int|
                    0 <= j < i ==> encode_utf8(
                        (#[trigger] dataset.columns@[j]).name@,
                    ).len() <= 255,
            decreases dataset.columns@.len() - i,
        {
            proof {
                assert(dataset.columns@.skip(i as int).first() == dataset.columns@[i as int]);
                assert(dataset.columns@.skip(i as int).drop_first() =~= dataset.columns@.skip(
                    i + 1,
                ));
            }
            let ghost before = bytes@;
            match Self::serialize_column_header(bytes, &dataset.columns[i]) {
                Ok(()) => {},
                Err(e) => {
                    return Err(e);
                },
            }
            i = i + 1;
            proof {
                assert(before + (column_header_bytes(dataset.columns@[i - 1]) + columns_bytes_spec(
                    dataset.columns@.skip(i as int),
                )) =~= bytes@ + columns_bytes_spec(dataset.columns@.skip(i as int)));
            }
        }
        proof {
            assert(columns_bytes_spec(dataset.columns@.skip(dataset.columns@.len() as int))
                == Seq::<u8>::empty());
            assert(bytes@ + Seq::<u8>::empty() =~= bytes@);
        }
        bytes.push(offsets.len() as u8);
        let ghost after_cols = bytes@;
        let mut j: usize = 0;
        proof {
            assert(chrom_pairs_bytes(offsets@.skip(0)) == chrom_pairs_bytes(offsets@)) by {
                assert(offsets@.skip(0) =~= offsets@);
            };
        }
        while j < offsets.len()
            invariant
                j <= offsets@.len(),
                bytes@ + chrom_pairs_bytes(offsets@.skip(j as int)) == after_cols
                    + chrom_pairs_bytes(offsets@),
            decreases offsets@.len() - j,
        {
            proof {
                assert(offsets@.skip(j as int).first() == offsets@[j as int]);
                assert(offsets@.skip(j as int).drop_first() =~= offsets@.skip(j + 1));
            }
            let ghost before = bytes@;
            bytes.push(offsets[j].0);
            push_u64_be(bytes, offsets[j].1);
            j = j + 1;
            proof {
                assert(before + (seq![offsets@[j - 1].0] + be_bytes(offsets@[j - 1].1 as int, 8)
                    + chrom_pairs_bytes(offsets@.skip(j as int))) =~= bytes@ + chrom_pairs_bytes(
                    offsets@.skip(j as int),
                ));
            }
        }
        proof {
            assert(chrom_pairs_bytes(offsets@.skip(offsets@.len() as int)) == Seq::<u8>::empty());
            assert(bytes@ + Seq::<u8>::empty() =~= bytes@);
            assert(bytes@ =~= old(bytes)@ + dataset_header_bytes(
                dataset.metadata->Some_0.name@,
                dataset.columns@,
                offsets@,
            ));
        }
        Ok(())
    }

    /// Append the whole database header: the magic, the version byte,
    /// the dataset count, and one dataset header per dataset pointing
    /// each chromosome at the given table index offset.
    pub fn serialize_database_header(&self, bytes: &mut Vec<u8>, offsets: &Vec<Vec<(u8, u64)>>) -> (r:
        Result<(), DbError>)
        requires
            offsets@.len() == self.config.datasets@.len(),
            forall|i: int|
                0 <= i < self.config.datasets@.len() ==> (
                #[trigger] self.config.datasets@[i]).metadata is Some,
        ensures
            match r {
                Ok(()) => {
                    &&& final(bytes)@ == old(bytes)@ + db_header_bytes(
                        self.config.datasets@,
                        offsets@.map_values(|v: Vec<(u8, u64)>| v@),
                    )
                    &&& header_serializable(
                        self.config.datasets@,
                        offsets@.map_values(|v: Vec<(u8, u64)>| v@),
                    )
                },
                Err(e) => e is ValidationError && !header_serializable(
                    self.config.datasets@,
                    offsets@.map_values(|v: Vec<(u8, u64)>| v@),
                ),
            },
    {
        if self.config.datasets.len() > 255 {
            return Err(
                DbError::ValidationError(String::from_str("too many datasets (max 255)")),
            );
        }
        let mut magic = crate::query::header_magic_vec();
        bytes.append(&mut magic);
        bytes.push(1u8);
        bytes.push(self.config.datasets.len() as u8);
        let ghost offs = offsets@.map_values(|v: Vec<(u8, u64)>| v@);
        let ghost after_head = bytes@;
        let ghost ds = self.config.datasets@;
        let mut i: usize = 0;
        while i < self.config.datasets.len()
            invariant
                i <= ds.len(),
                ds == self.config.datasets@,
                ds.len() <= 255,
                offs == offsets@.map_values(|v: Vec<(u8, u64)>| v@),
                offs.len() == ds.len(),
                forall|k: int| 0 <= k < ds.len() ==> (#[trigger] ds[k]).metadata is Some,
                bytes@ + datasets_header_bytes(ds, offs, i as int) == after_head
                    + datasets_header_bytes(ds, offs, 0),
                forall|k: int|
                    0 <= k < i ==> {
                        &&& encode_utf8((#[trigger] ds[k]).metadata->Some_0.name@).len() <= 255
                        &&& ds[k].columns@.len() <= 255
                        &&& offs[k].len() <= 255
                        &&& forall|j: int|
                            0 <= j < ds[k].columns@.len() ==> encode_utf8(
                                (#[trigger] ds[k].columns@[j]).name@,
                            ).len() <= 255
                    },
            decreases ds.len() - i,
        {
            let ghost before = bytes@;
            proof {
                assert(offs[i as int] == offsets@[i as int]@);
            }
            match Self::serialize_dataset_header(
                bytes,
                &self.config.datasets[i],
                &offsets[i],
            ) {
                Ok(()) => {},
                Err(e) => {
                    return Err(e);
                },
            }
            i = i + 1;
            proof {
                assert(before + (dataset_header_bytes(
                    ds[i - 1].metadata->Some_0.name@,
                    ds[i - 1].columns@,
                    offs[i - 1],
                ) + datasets_header_bytes(ds, offs, i as int)) =~= bytes@ + datasets_header_bytes(
                    ds,
                    offs,
                    i as int,
                ));
            }
        }
        proof {
            assert(datasets_header_bytes(ds, offs, ds.len() as int) == Seq::<u8>::empty());
            assert(bytes@ + Seq::<u8>::empty() =~= bytes@);
            assert(bytes@ =~= old(bytes)@ + db_header_bytes(ds, offs));
        }
        Ok(())
    }

    /// Overwrite the first `src.len()` bytes of `bytes` with `src`.
    fn overwrite_prefix(bytes: &mut Vec<u8>, src: &Vec<u8>)
        requires
            src@.len() <= old(bytes)@.len(),
        ensures
            final(bytes)@ == src@ + old(bytes)@.skip(src@.len() as int),
    {
        let mut i: usize = 0;
        proof {
            assert(bytes@ =~= src@.take(0) + old(bytes)@.skip(0));
        }
        while i < src.len()
            invariant
                i <= src@.len() <= bytes@.len(),
                bytes@.len() == old(bytes)@.len(),
                bytes@ == src@.take(i as int) + old(bytes)@.skip(i as int).skip(
                    0,
                ).take(bytes@.len() - i) || bytes@ =~= src@.take(i as int) + old(bytes)@.skip(
                    i as int,
                ),
                bytes@.subrange(i as int, bytes@.len() as int) == old(bytes)@.subrange(
                    i as int,
                    old(bytes)@.len() as int,
                ),
                bytes@.subrange(0, i as int) == src@.subrange(0, i as int),
            decreases src@.len() - i,
        {
            let v = src[i];
            bytes[i] = v;
            i = i + 1;
            proof {
                assert(bytes@.subrange(0, i as int) =~= src@.subrange(0, i as int));
                assert(bytes@.subrange(i as int, bytes@.len() as int) =~= old(bytes)@.subrange(
                    i as int,
                    old(bytes)@.len() as int,
                ));
                assert(bytes@ =~= src@.take(i as int) + old(bytes)@.skip(i as int));
            }
        }
        proof {
            assert(src@.take(src@.len() as int) =~= src@);
            assert(bytes@ =~= src@ + old(bytes)@.skip(src@.len() as int));
        }
    }

    /// Build one table of a dataset onto `out` and return its header
    /// pointer.
    #[verifier::rlimit(100)]
    #[verifier::spinoff_prover]
    fn append_table(
        out: &mut Vec<u8>,
        dataset: &Dataset,
        types: &Vec<ColumnType>,
        table: &Table,
        Ghost(hl): Ghost<int>,
    ) -> (r: Result<(u8, u64), DbError>)
        requires
            dataset_schema_ok(*dataset),
            types@ == dataset_types(*dataset),
            0 <= hl <= old(out)@.len(),
        ensures
            match r {
                Ok(p) => {
                    &&& final(out)@.len() >= old(out)@.len()
                    &&& final(out)@.subrange(0, old(out)@.len() as int) == old(out)@
                    &&& p.0 == table.chromosome
                    &&& table_installed(
                        final(out)@,
                        hl,
                        p.1 as int,
                        types@,
                        dataset.compression_algorithm,
                        table.rows.deep_view(),
                    )
                },
                Err(e) => (e is ValidationError && !table_buildable(
                    table.rows.deep_view(),
                    types@,
                    dataset.rows_per_index as int,
                )) || e is OutOfRange,
            },
    {
        let entries = match Self::build_blocks(
            out,
            types,
            &table.rows,
            dataset.rows_per_index,
            dataset.compression_algorithm,
        ) {
            Ok(es) => es,
            Err(e) => {
                return Err(e);
            },
        };
        let ti = match Self::complete_table(
            out,
            &table.rows,
            entries,
            dataset.rows_per_index,
            dataset.compression_algorithm,
            Ghost(old(out)@),
            Ghost(table.rows.deep_view()),
            Ghost(types@),
            Ghost(hl),
        ) {
            Ok(ti) => ti,
            Err(e) => {
                return Err(e);
            },
        };
        Ok((table.chromosome, ti.index_start_offset))
    }

    /// Build every table of one dataset onto `out`, returning one
    /// `(chromosome, index offset)` pointer per table.
    #[verifier::rlimit(100)]
    #[verifier::spinoff_prover]
    fn build_dataset_tables(
        out: &mut Vec<u8>,
        dataset: &Dataset,
        tables_d: &Vec<Table>,
        Ghost(hl): Ghost<int>,
    ) -> (r: Result<Vec<(u8, u64)>, DbError>)
        requires
            dataset_schema_ok(*dataset),
            0 <= hl <= old(out)@.len(),
        ensures
            match r {
                Ok(offs) => {
                    &&& final(out)@.len() >= old(out)@.len()
                    &&& final(out)@.subrange(0, old(out)@.len() as int) == old(out)@
                    &&& offs@.len() == tables_d@.len()
                    &&& forall|t: int|
                        0 <= t < offs@.len() ==> (#[trigger] offs@[t]).0
                            == tables_d@[t].chromosome
                    &&& forall|t: int|
                        0 <= t < offs@.len() ==> table_installed(
                            final(out)@,
                            hl,
                            (#[trigger] offs@[t]).1 as int,
                            dataset_types(*dataset),
                            dataset.compression_algorithm,
                            tables_d@[t].rows.deep_view(),
                        )
                },
                Err(e) => (e is ValidationError && exists|t: int|
                    0 <= t < tables_d@.len() && !table_buildable(
                        (#[trigger] tables_d@[t]).rows.deep_view(),
                        dataset_types(*dataset),
                        dataset.rows_per_index as int,
                    )) || e is OutOfRange,
            },
    {
        let mut types: Vec<ColumnType> = Vec::new();
        let mut c: usize = 0;
        while c < dataset.columns.len()
            invariant
                c <= dataset.columns@.len(),
                types@.len() == c,
                forall|j: int| 0 <= j < c ==> types@[j] == dataset.columns@[j].type_,
            decreases dataset.columns@.len() - c,
        {
            types.push(dataset.columns[c].type_);
            c = c + 1;
        }
        proof {
            assert(types@ =~= dataset_types(*dataset));
        }
        let mut offs: Vec<(u8, u64)> = Vec::new();
        let mut t: usize = 0;
        while t < tables_d.len()
            invariant
                t <= tables_d@.len(),
                dataset_schema_ok(*dataset),
                types@ == dataset_types(*dataset),
                0 <= hl <= old(out)@.len() <= out@.len(),
                out@.subrange(0, old(out)@.len() as int) == old(out)@,
                offs@.len() == t,
                forall|k: int|
                    0 <= k < t ==> (#[trigger] offs@[k]).0 == tables_d@[k].chromosome,
                forall|k: int|
                    0 <= k < t ==> table_installed(
                        out@,
                        hl,
                        (#[trigger] offs@[k]).1 as int,
                        dataset_types(*dataset),
                        dataset.compression_algorithm,
                        tables_d@[k].rows.deep_view(),
                    ),
            decreases tables_d@.len() - t,
        {
            let ghost out_prev = out@;
            let pointer = match Self::append_table(out, dataset, &types, &tables_d[t], Ghost(hl)) {
                Ok(p) => p,
                Err(e) => {
                    proof {
                        if e is ValidationError {
                            assert(0 <= t < tables_d@.len() && !table_buildable(
                                (#[trigger] tables_d@[t as int]).rows.deep_view(),
                                dataset_types(*dataset),
                                dataset.rows_per_index as int,
                            ));
                        }
                    }
                    return Err(e);
                },
            };
            offs.push(pointer);
            t = t + 1;
            proof {
                assert forall|k: int| 0 <= k < t - 1 implies table_installed(
                    out@,
                    hl,
                    (#[trigger] offs@[k]).1 as int,
                    dataset_types(*dataset),
                    dataset.compression_algorithm,
                    tables_d@[k].rows.deep_view(),
                ) by {
                    lemma_subrange_stable(out_prev, out@, hl, out_prev.len() as int);
                    lemma_table_installed_agree(
                        out_prev,
                        out@,
                        hl,
                        offs@[k].1 as int,
                        dataset_types(*dataset),
                        dataset.compression_algorithm,
                        tables_d@[k].rows.deep_view(),
                    );
                };
                lemma_subrange_stable(out_prev, out@, 0, old(out)@.len() as int);
            }
        }
        Ok(offs)
    }

    /// Build the whole database image: the header, then every dataset's    /// Build the whole database image: the header, then every dataset's
    /// tables in declared order, each table's blocks followed by its
    /// index.  On success the image begins with the magic and version 1,
    /// its header parses back to the configuration's datasets, and at
    /// every table offset the header records, a well-formed table stands
    /// holding exactly that table's input rows.  Success is owed whenever
    /// every name and count fits the header and every table's rows can
    /// make a table; only an actual address-space bound reports
    /// `OutOfRange`.
    #[verifier::rlimit(100)]
    #[verifier::spinoff_prover]
    pub fn save_bytes(&self, tables: &Vec<Vec<Table>>) -> (r: Result<Vec<u8>, DbError>)
        requires
            tables@.len() == self.config.datasets@.len(),
            forall|i: int|
                0 <= i < self.config.datasets@.len() ==> (
                #[trigger] self.config.datasets@[i]).metadata is Some,
        ensures
            match r {
                Ok(bytes) => {
                    &&& has_magic(bytes@)
                    &&& bytes@.len() >= 9
                    &&& bytes@[7] == 1
                    &&& parse_header(bytes@) matches Some(m)
                    &&& parse_header(bytes@)->Some_0.version == 1
                    &&& parse_header(bytes@)->Some_0.datasets.len()
                        == self.config.datasets@.len()
                    &&& forall|d: int|
                        0 <= d < self.config.datasets@.len() ==> {
                            let dm = #[trigger] parse_header(bytes@)->Some_0.datasets[d];
                            let dd = self.config.datasets@[d];
                            &&& dm.name == dd.metadata->Some_0.name@
                            &&& dm.columns.len() == dd.columns@.len()
                            &&& (forall|j: int|
                                0 <= j < dd.columns@.len() ==> (#[trigger] dm.columns[j]).type_
                                    == dd.columns@[j].type_ && dm.columns[j].name
                                    == dd.columns@[j].name@)
                            &&& dm.tables.len() == tables@[d]@.len()
                            &&& (forall|t: int|
                                0 <= t < tables@[d]@.len() ==> {
                                    let th = #[trigger] dm.tables[t];
                                    &&& th.chromosome == tables@[d]@[t].chromosome
                                    &&& table_installed(
                                        bytes@,
                                        0,
                                        th.offset as int,
                                        dataset_types(dd),
                                        dd.compression_algorithm,
                                        tables@[d]@[t].rows.deep_view(),
                                    )
                                })
                        }
                },
                Err(e) => (e is ValidationError && !(save_serializable(
                    self.config.datasets@,
                    tables@,
                ) && forall|d: int, t: int|
                    0 <= d < tables@.len() && 0 <= t < tables@[d]@.len() ==> table_buildable(
                        (#[trigger] tables@[d]@[t]).rows.deep_view(),
                        dataset_types(self.config.datasets@[d]),
                        self.config.datasets@[d].rows_per_index as int,
                    ))) || e is OutOfRange,
            },
    {
        let ghost ds = self.config.datasets@;
        // a placeholder header of the final length
        let mut zero_offsets: Vec<Vec<(u8, u64)>> = Vec::new();
        let mut d: usize = 0;
        while d < tables.len()
            invariant
                d <= tables@.len(),
                zero_offsets@.len() == d,
                forall|k: int|
                    0 <= k < d ==> (#[trigger] zero_offsets@[k])@.len() == tables@[k]@.len(),
            decreases tables@.len() - d,
        {
            let mut z: Vec<(u8, u64)> = Vec::new();
            let mut t: usize = 0;
            while t < tables[d].len()
                invariant
                    d < tables@.len(),
                    t <= tables@[d as int]@.len(),
                    z@.len() == t,
                decreases tables@[d as int]@.len() - t,
            {
                z.push((tables[d][t].chromosome, 0u64));
                t = t + 1;
            }
            zero_offsets.push(z);
            d = d + 1;
        }
        let mut out: Vec<u8> = Vec::new();
        match self.serialize_database_header(&mut out, &zero_offsets) {
            Ok(()) => {},
            Err(e) => {
                proof {
                    if save_serializable(ds, tables@) {
                        assert(header_serializable(
                            ds,
                            zero_offsets@.map_values(|v: Vec<(u8, u64)>| v@),
                        ));
                        assert(false);
                    }
                }
                return Err(e);
            },
        }
        let header_len = out.len();
        // build every table, recording where its index lands
        let mut offsets: Vec<Vec<(u8, u64)>> = Vec::new();
        let mut d2: usize = 0;
        while d2 < tables.len()
            invariant
                d2 <= tables@.len(),
                ds == self.config.datasets@,
                tables@.len() == ds.len(),
                forall|i: int| 0 <= i < ds.len() ==> (#[trigger] ds[i]).metadata is Some,
                header_len <= out@.len(),
                out@.subrange(0, header_len as int) == out@.subrange(0, header_len as int),
                offsets@.len() == d2,
                forall|k: int|
                    0 <= k < d2 ==> (#[trigger] offsets@[k])@.len() == tables@[k]@.len(),
                forall|k: int, t: int|
                    0 <= k < d2 && 0 <= t < tables@[k]@.len() ==> (#[trigger] offsets@[k]@[t]).0
                        == tables@[k]@[t].chromosome,
                forall|k: int, t: int|
                    0 <= k < d2 && 0 <= t < tables@[k]@.len() ==> table_installed(
                        out@,
                        header_len as int,
                        (#[trigger] offsets@[k]@[t]).1 as int,
                        dataset_types(ds[k]),
                        ds[k].compression_algorithm,
                        tables@[k]@[t].rows.deep_view(),
                    ),
            decreases tables@.len() - d2,
        {
            let dataset = &self.config.datasets[d2];
            if dataset.columns.len() == 0 || !matches!(
                dataset.columns[0].type_,
                ColumnType::Integer,
            ) || dataset.rows_per_index == 0 {
                proof {
                    assert(!dataset_schema_ok(ds[d2 as int]));
                }
                return Err(
                    DbError::ValidationError(
                        String::from_str(
                            "dataset schema must lead with an integer position column and use a positive block size",
                        ),
                    ),
                );
            }
            let ghost out_prev = out@;
            let ds_offsets = match Self::build_dataset_tables(
                &mut out,
                dataset,
                &tables[d2],
                Ghost(header_len as int),
            ) {
                Ok(offs) => offs,
                Err(e) => {
                    return Err(e);
                },
            };
            offsets.push(ds_offsets);
            d2 = d2 + 1;
            proof {
                assert forall|k: int, t: int|
                    0 <= k < d2 - 1 && 0 <= t < tables@[k]@.len() implies table_installed(
                    out@,
                    header_len as int,
                    (#[trigger] offsets@[k]@[t]).1 as int,
                    dataset_types(ds[k]),
                    ds[k].compression_algorithm,
                    tables@[k]@[t].rows.deep_view(),
                ) by {
                    lemma_subrange_stable(out_prev, out@, header_len as int, out_prev.len() as int);
                    lemma_table_installed_agree(
                        out_prev,
                        out@,
                        header_len as int,
                        offsets@[k]@[t].1 as int,
                        dataset_types(ds[k]),
                        ds[k].compression_algorithm,
                        tables@[k]@[t].rows.deep_view(),
                    );
                };
            }
        }
        // write the real header over the placeholder: offsets never change
        // its length
        let mut real_header: Vec<u8> = Vec::new();
        match self.serialize_database_header(&mut real_header, &offsets) {
            Ok(()) => {},
            Err(e) => {
                proof {
                    assert(header_serializable(
                        ds,
                        zero_offsets@.map_values(|v: Vec<(u8, u64)>| v@),
                    ));
                    assert(header_serializable(
                        ds,
                        offsets@.map_values(|v: Vec<(u8, u64)>| v@),
                    ));
                    assert(false);
                }
                return Err(e);
            },
        }
        proof {
            lemma_header_len_offsets(
                ds,
                zero_offsets@.map_values(|v: Vec<(u8, u64)>| v@),
                offsets@.map_values(|v: Vec<(u8, u64)>| v@),
                0,
            );
            assert(real_header@.len() == header_len as int);
        }
        let ghost before_patch = out@;
        Self::overwrite_prefix(&mut out, &real_header);
        proof {
            let offs_m = offsets@.map_values(|v: Vec<(u8, u64)>| v@);
            let hb = db_header_bytes(ds, offs_m);
            assert(real_header@ == hb);
            assert(out@.len() == before_patch.len());
            assert(out@.subrange(header_len as int, out@.len() as int) =~= before_patch.subrange(
                header_len as int,
                before_patch.len() as int,
            ));
            // every installed table survives the header rewrite
            assert forall|k: int, t: int|
                0 <= k < tables@.len() && 0 <= t < tables@[k]@.len() implies table_installed(
                out@,
                header_len as int,
                (#[trigger] offsets@[k]@[t]).1 as int,
                dataset_types(ds[k]),
                ds[k].compression_algorithm,
                tables@[k]@[t].rows.deep_view(),
            ) by {
                lemma_table_installed_agree(
                    before_patch,
                    out@,
                    header_len as int,
                    offsets@[k]@[t].1 as int,
                    dataset_types(ds[k]),
                    ds[k].compression_algorithm,
                    tables@[k]@[t].rows.deep_view(),
                );
            };
            // the header region now parses back to the configuration
            assert(out@.subrange(0, hb.len() as int) =~= hb);
            lemma_header_round_trip(out@, ds, offs_m);
            assert(parse_header(out@) == Some(header_model_of(ds, offs_m)));
            assert(has_magic(out@));
            assert(out@[7] == hb[7]);
            assert(hb[7] == 1u8);
            // the recorded offsets relax to the trivial lower bound
            assert forall|k: int, t: int|
                0 <= k < tables@.len() && 0 <= t < tables@[k]@.len() implies table_installed(
                out@,
                0,
                (#[trigger] offsets@[k]@[t]).1 as int,
                dataset_types(ds[k]),
                ds[k].compression_algorithm,
                tables@[k]@[t].rows.deep_view(),
            ) by {
                reveal(table_installed);
                assert(table_installed(
                    out@,
                    header_len as int,
                    offsets@[k]@[t].1 as int,
                    dataset_types(ds[k]),
                    ds[k].compression_algorithm,
                    tables@[k]@[t].rows.deep_view(),
                ));
            };
        }
        Ok(out)
    }
}

/// The parsed model of a dataset header written from `d` and `offs`.
pub open spec fn dataset_model_of(d: Dataset, offs: Seq<(u8, u64)>) -> DatasetHeaderModel {
    DatasetHeaderModel {
        name: d.metadata->Some_0.name@,
        columns: Seq::new(
            d.columns@.len(),
            |j: int| ColumnHeaderModel { type_: d.columns@[j].type_, name: d.columns@[j].name@ },
        ),
        tables: Seq::new(
            offs.len(),
            |j: int| TableHeader { chromosome: offs[j].0, offset: offs[j].1 },
        ),
    }
}

/// The parsed model of the whole header written from `ds` and `offs`.
pub open spec fn header_model_of(ds: Seq<Dataset>, offs: Seq<Seq<(u8, u64)>>) -> DatabaseHeaderModel {
    DatabaseHeaderModel {
        version: 1,
        datasets: Seq::new(ds.len(), |i: int| dataset_model_of(ds[i], offs[i])),
    }
}

/// A length-prefixed name parses back to its characters.
proof fn lemma_name_round_trip(b: Seq<u8>, pos: int, name: Seq<char>)
    requires
        encode_utf8(name).len() <= 255,
        0 <= pos,
        pos + 1 + encode_utf8(name).len() <= b.len(),
        b.subrange(pos, pos + 1 + encode_utf8(name).len()) == seq![
            (encode_utf8(name).len() as u8),
        ] + encode_utf8(name),
    ensures
        string_at(b, pos) == Some((name, 1 + encode_utf8(name).len() as int)),
{
    let body = encode_utf8(name);
    let n = body.len() as int;
    let chunk = seq![(n as u8)] + body;
    assert(b[pos] == chunk[0]);
    assert((n as u8) as int == n);
    assert forall|i: int| 0 <= i < n implies b.subrange(pos + 1, pos + 1 + n)[i] == body[i] by {
        assert(b.subrange(pos, pos + 1 + n)[1 + i] == b[pos + 1 + i]);
        assert(chunk[1 + i] == body[i]);
    };
    assert(b.subrange(pos + 1, pos + 1 + n) =~= body);
    encode_utf8_valid_utf8(name);
    encode_utf8_decode_utf8(name);
}

/// One serialized column header parses back to its model.
proof fn lemma_column_round_trip(b: Seq<u8>, pos: int, c: Column)
    requires
        encode_utf8(c.name@).len() <= 255,
        0 <= pos,
        pos + column_header_bytes(c).len() <= b.len(),
        b.subrange(pos, pos + column_header_bytes(c).len()) == column_header_bytes(c),
    ensures
        parse_column(b, pos) == Some(
            (ColumnHeaderModel { type_: c.type_, name: c.name@ }, pos + column_header_bytes(
                c,
            ).len()),
        ),
{
    let body = encode_utf8(c.name@);
    let hb = column_header_bytes(c);
    assert(hb.len() == 2 + body.len());
    assert(b[pos] == hb[0]);
    assert(hb[0] == crate::config::type_tag(c.type_));
    let name_chunk = seq![(body.len() as u8)] + body;
    assert forall|i: int| 0 <= i < name_chunk.len() implies b.subrange(
        pos + 1,
        pos + 1 + name_chunk.len(),
    )[i] == name_chunk[i] by {
        assert(b.subrange(pos, pos + hb.len())[1 + i] == b[pos + 1 + i]);
        assert(hb[1 + i] == name_chunk[i]);
    };
    assert(b.subrange(pos + 1, pos + 1 + name_chunk.len()) =~= name_chunk);
    lemma_name_round_trip(b, pos + 1, c.name@);
}

/// A run of serialized column headers parses back to its models.
proof fn lemma_columns_round_trip(b: Seq<u8>, pos: int, cs: Seq<Column>)
    requires
        forall|j: int| 0 <= j < cs.len() ==> encode_utf8((#[trigger] cs[j]).name@).len() <= 255,
        0 <= pos,
        pos + columns_bytes_spec(cs).len() <= b.len(),
        b.subrange(pos, pos + columns_bytes_spec(cs).len()) == columns_bytes_spec(cs),
    ensures
        parse_columns(b, pos, cs.len()) == Some(
            (
                Seq::new(
                    cs.len(),
                    |j: int| ColumnHeaderModel { type_: cs[j].type_, name: cs[j].name@ },
                ),
                pos + columns_bytes_spec(cs).len(),
            ),
        ),
    decreases cs.len(),
{
    if cs.len() == 0 {
        assert(Seq::new(0, |j: int| ColumnHeaderModel { type_: cs[j].type_, name: cs[j].name@ })
            =~= Seq::<ColumnHeaderModel>::empty());
    } else {
        let first = column_header_bytes(cs.first());
        let rest = columns_bytes_spec(cs.drop_first());
        assert(columns_bytes_spec(cs) == first + rest);
        lemma_split_concat(b, pos, first, rest);
        lemma_column_round_trip(b, pos, cs.first());
        assert(forall|j: int|
            0 <= j < cs.drop_first().len() ==> encode_utf8(
                (#[trigger] cs.drop_first()[j]).name@,
            ).len() <= 255);
        lemma_columns_round_trip(b, pos + first.len(), cs.drop_first());
        assert(seq![ColumnHeaderModel { type_: cs.first().type_, name: cs.first().name@ }]
            + Seq::new(
            cs.drop_first().len(),
            |j: int| ColumnHeaderModel {
                type_: cs.drop_first()[j].type_,
                name: cs.drop_first()[j].name@,
            },
        ) =~= Seq::new(
            cs.len(),
            |j: int| ColumnHeaderModel { type_: cs[j].type_, name: cs[j].name@ },
        ));
    }
}

/// A run of serialized chromosome pointers parses back to its models.
proof fn lemma_pairs_round_trip(b: Seq<u8>, pos: int, ps: Seq<(u8, u64)>)
    requires
        0 <= pos,
        pos + chrom_pairs_bytes(ps).len() <= b.len(),
        b.subrange(pos, pos + chrom_pairs_bytes(ps).len()) == chrom_pairs_bytes(ps),
    ensures
        parse_table_entries(b, pos, ps.len()) == Some(
            (
                Seq::new(ps.len(), |j: int| TableHeader { chromosome: ps[j].0, offset: ps[j].1 }),
                pos + chrom_pairs_bytes(ps).len(),
            ),
        ),
    decreases ps.len(),
{
    vstd::arithmetic::power2::lemma2_to64_rest();
    if ps.len() == 0 {
        assert(Seq::new(0, |j: int| TableHeader { chromosome: ps[j].0, offset: ps[j].1 })
            =~= Seq::<TableHeader>::empty());
    } else {
        lemma_be_bytes_len(ps.first().1 as int, 8);
        let first = seq![ps.first().0] + be_bytes(ps.first().1 as int, 8);
        let rest = chrom_pairs_bytes(ps.drop_first());
        assert(chrom_pairs_bytes(ps) =~= first + rest);
        lemma_split_concat(b, pos, first, rest);
        assert(b[pos] == first[0]);
        assert forall|i: int| 0 <= i < 8 implies b.subrange(pos + 1, pos + 9)[i] == be_bytes(
            ps.first().1 as int,
            8,
        )[i] by {
            assert(b.subrange(pos, pos + 9)[1 + i] == b[pos + 1 + i]);
            assert(first[1 + i] == be_bytes(ps.first().1 as int, 8)[i]);
        };
        assert(b.subrange(pos + 1, pos + 9) =~= be_bytes(ps.first().1 as int, 8));
        lemma_be_load_be_bytes(ps.first().1 as int, 8);
        assert(parse_table_entry(b, pos) == Some(
            (TableHeader { chromosome: ps.first().0, offset: ps.first().1 }, pos + 9),
        ));
        lemma_pairs_round_trip(b, pos + 9, ps.drop_first());
        assert(seq![TableHeader { chromosome: ps.first().0, offset: ps.first().1 }] + Seq::new(
            ps.drop_first().len(),
            |j: int| TableHeader {
                chromosome: ps.drop_first()[j].0,
                offset: ps.drop_first()[j].1,
            },
        ) =~= Seq::new(ps.len(), |j: int| TableHeader { chromosome: ps[j].0, offset: ps[j].1 }));
    }
}

/// One serialized dataset header parses back to its model.
proof fn lemma_dataset_round_trip(b: Seq<u8>, pos: int, d: Dataset, offs: Seq<(u8, u64)>)
    requires
        d.metadata is Some,
        encode_utf8(d.metadata->Some_0.name@).len() <= 255,
        d.columns@.len() <= 255,
        offs.len() <= 255,
        forall|j: int|
            0 <= j < d.columns@.len() ==> encode_utf8((#[trigger] d.columns@[j]).name@).len()
                <= 255,
        0 <= pos,
        pos + dataset_header_bytes(d.metadata->Some_0.name@, d.columns@, offs).len() <= b.len(),
        b.subrange(
            pos,
            pos + dataset_header_bytes(d.metadata->Some_0.name@, d.columns@, offs).len(),
        ) == dataset_header_bytes(d.metadata->Some_0.name@, d.columns@, offs),
    ensures
        parse_dataset(b, pos) == Some(
            (
                dataset_model_of(d, offs),
                pos + dataset_header_bytes(d.metadata->Some_0.name@, d.columns@, offs).len(),
            ),
        ),
{
    let name = d.metadata->Some_0.name@;
    let nb = encode_utf8(name);
    let cs = d.columns@;
    let whole = dataset_header_bytes(name, cs, offs);
    let name_chunk = seq![(nb.len() as u8)] + nb;
    let cols = columns_bytes_spec(cs);
    let pairs = chrom_pairs_bytes(offs);
    assert(whole =~= name_chunk + (seq![(cs.len() as u8)] + (cols + (seq![(offs.len() as u8)]
        + pairs))));
    lemma_split_concat(b, pos, name_chunk, seq![(cs.len() as u8)] + (cols + (seq![
        (offs.len() as u8),
    ] + pairs)));
    lemma_name_round_trip(b, pos, name);
    let p1 = pos + name_chunk.len();
    lemma_split_concat(b, p1, seq![(cs.len() as u8)], cols + (seq![(offs.len() as u8)] + pairs));
    assert(b.subrange(p1, p1 + 1)[0] == b[p1]);
    assert(b[p1] == (cs.len() as u8));
    let p2 = p1 + 1;
    lemma_split_concat(b, p2, cols, seq![(offs.len() as u8)] + pairs);
    lemma_columns_round_trip(b, p2, cs);
    let p3 = p2 + cols.len();
    lemma_split_concat(b, p3, seq![(offs.len() as u8)], pairs);
    assert(b.subrange(p3, p3 + 1)[0] == b[p3]);
    assert(b[p3] == (offs.len() as u8));
    let p4 = p3 + 1;
    lemma_pairs_round_trip(b, p4, offs);
}

/// A run of serialized dataset headers parses back to its models.
proof fn lemma_datasets_round_trip(b: Seq<u8>, pos: int, ds: Seq<Dataset>, offs: Seq<Seq<(u8, u64)>>, i: int)
    requires
        0 <= i <= ds.len(),
        offs.len() == ds.len(),
        forall|k: int|
            0 <= k < ds.len() ==> {
                &&& (#[trigger] ds[k]).metadata is Some
                &&& encode_utf8(ds[k].metadata->Some_0.name@).len() <= 255
                &&& ds[k].columns@.len() <= 255
                &&& offs[k].len() <= 255
                &&& forall|j: int|
                    0 <= j < ds[k].columns@.len() ==> encode_utf8(
                        (#[trigger] ds[k].columns@[j]).name@,
                    ).len() <= 255
            },
        0 <= pos,
        pos + datasets_header_bytes(ds, offs, i).len() <= b.len(),
        b.subrange(pos, pos + datasets_header_bytes(ds, offs, i).len()) == datasets_header_bytes(
            ds,
            offs,
            i,
        ),
    ensures
        parse_datasets(b, pos, (ds.len() - i) as nat) == Some(
            (
                Seq::new((ds.len() - i) as nat, |k: int| dataset_model_of(ds[i + k], offs[i + k])),
                pos + datasets_header_bytes(ds, offs, i).len(),
            ),
        ),
    decreases ds.len() - i,
{
    if i == ds.len() {
        assert(Seq::new(0, |k: int| dataset_model_of(ds[i + k], offs[i + k])) =~= Seq::<
            DatasetHeaderModel,
        >::empty());
    } else {
        let first = dataset_header_bytes(ds[i].metadata->Some_0.name@, ds[i].columns@, offs[i]);
        let rest = datasets_header_bytes(ds, offs, i + 1);
        assert(datasets_header_bytes(ds, offs, i) == first + rest);
        lemma_split_concat(b, pos, first, rest);
        lemma_dataset_round_trip(b, pos, ds[i], offs[i]);
        lemma_datasets_round_trip(b, pos + first.len(), ds, offs, i + 1);
        assert(seq![dataset_model_of(ds[i], offs[i])] + Seq::new(
            (ds.len() - i - 1) as nat,
            |k: int| dataset_model_of(ds[i + 1 + k], offs[i + 1 + k]),
        ) =~= Seq::new((ds.len() - i) as nat, |k: int| dataset_model_of(ds[i + k], offs[i + k])));
    }
}

/// Round trip for the whole header: a file that begins with the
/// serialized header of `ds` and `offs` parses back to their models,
/// with version 1.
pub proof fn lemma_header_round_trip(file: Seq<u8>, ds: Seq<Dataset>, offs: Seq<Seq<(u8, u64)>>)
    requires
        header_serializable(ds, offs),
        db_header_bytes(ds, offs).len() <= file.len(),
        file.subrange(0, db_header_bytes(ds, offs).len() as int) == db_header_bytes(ds, offs),
    ensures
        parse_header(file) == Some(header_model_of(ds, offs)),
{
    let hb = db_header_bytes(ds, offs);
    let magic = crate::query::header_magic();
    let head = seq![1u8, (ds.len() as u8)];
    let body = datasets_header_bytes(ds, offs, 0);
    assert(hb =~= magic + (head + body));
    lemma_split_concat(file, 0, magic, head + body);
    lemma_split_concat(file, 7, head, body);
    assert(has_magic(file));
    assert(file[7] == head[0]) by {
        assert(file.subrange(7, 9)[0] == file[7]);
    };
    assert(file[8] == head[1]) by {
        assert(file.subrange(7, 9)[1] == file[8]);
    };
    lemma_datasets_round_trip(file, 9, ds, offs, 0);
    assert(header_model_of(ds, offs).datasets =~= Seq::new(
        (ds.len() - 0) as nat,
        |k: int| dataset_model_of(ds[0 + k], offs[0 + k]),
    ));
}

/// Chromosome pointers take nine bytes each.
proof fn lemma_chrom_pairs_len(ps: Seq<(u8, u64)>)
    ensures
        chrom_pairs_bytes(ps).len() == 9 * ps.len(),
    decreases ps.len(),
{
    if ps.len() > 0 {
        lemma_be_bytes_len(ps.first().1 as int, 8);
        lemma_chrom_pairs_len(ps.drop_first());
    }
}

/// The header's length depends only on names and counts, never on the
/// offsets written into it.
proof fn lemma_header_len_offsets(
    ds: Seq<Dataset>,
    o1: Seq<Seq<(u8, u64)>>,
    o2: Seq<Seq<(u8, u64)>>,
    i: int,
)
    requires
        o1.len() == ds.len(),
        o2.len() == ds.len(),
        forall|k: int| 0 <= k < ds.len() ==> (#[trigger] o1[k]).len() == o2[k].len(),
        forall|k: int| 0 <= k < ds.len() ==> (#[trigger] ds[k]).metadata is Some,
    ensures
        datasets_header_bytes(ds, o1, i).len() == datasets_header_bytes(ds, o2, i).len(),
    decreases ds.len() - i,
{
    if 0 <= i < ds.len() {
        lemma_chrom_pairs_len(o1[i]);
        lemma_chrom_pairs_len(o2[i]);
        lemma_header_len_offsets(ds, o1, o2, i + 1);
    }
}

} // verus!






