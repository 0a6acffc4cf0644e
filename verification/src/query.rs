//! The query engine: the in-memory sparse index, the header reader, and
//! the range scan over compressed blocks.
use vstd::prelude::*;
use vstd::string::StringExecFns;
use crate::DbError;
use crate::config::ColumnType;
use crate::deserialize::be_load;
use crate::deserialize::read_string_u8;
use crate::deserialize::read_u64;
use crate::deserialize::read_u8;
use crate::deserialize::string_at;
use crate::varint::read_vint_u64;
use crate::varint::vint_at;
use crate::compression::CompressionAlgorithm;
use crate::compression::RowDecompressor;
use crate::compression::decompress_of;
use crate::rows::CellModel;
use crate::rows::Row;
use crate::rows::block_bytes;
use crate::rows::block_conforms;
use crate::rows::deserialize_range;
use crate::rows::full_scan_end;
use crate::rows::full_scan_start;
use crate::rows::lemma_block_round_trip;
use crate::rows::lemma_rows_in_range_concat;
use crate::rows::lemma_rows_in_range_congruence;
use crate::rows::lemma_rows_in_range_none;
use crate::rows::parse_range;
use crate::rows::row_pos;
use crate::rows::rows_in_range;
use crate::rows::rows_sorted;
use vstd::slice::slice_subrange;

verus! {

/// The in-memory sparse index of one table: one `(first-position,
/// byte-offset)` entry per block, in ascending position order, plus the
/// table's largest leading position and the bounds of the on-disk index.
#[derive(Debug)]
pub struct TableIndex {
    /// `(first position in block, byte offset of block)`, ascending.
    pub inner: Vec<(u64, u64)>,
    /// The largest leading-position value in the table.
    pub max_position: u64,
    /// Byte offset of the on-disk index (one past the last block).
    pub index_start_offset: u64,
    /// Byte offset one past the on-disk index.
    pub index_end_offset: u64,
}

/// Entry positions are strictly increasing.
pub open spec fn entries_sorted(es: Seq<(u64, u64)>) -> bool {
    forall|i: int, j: int| 0 <= i < j < es.len() ==> (#[trigger] es[i]).0 < (#[trigger] es[j]).0
}

/// The least index whose entry position exceeds `x` (`es.len()` if none).
pub open spec fn first_above(es: Seq<(u64, u64)>, x: u64) -> int
    decreases es.len(),
{
    if es.len() == 0 {
        0
    } else if es.first().0 > x {
        0
    } else {
        1 + first_above(es.drop_first(), x)
    }
}

/// The least index whose entry position is at least `x` (`es.len()` if none).
pub open spec fn first_at_or_above(es: Seq<(u64, u64)>, x: u64) -> int
    decreases es.len(),
{
    if es.len() == 0 {
        0
    } else if es.first().0 >= x {
        0
    } else {
        1 + first_at_or_above(es.drop_first(), x)
    }
}

/// The entries a range scan visits: from the predecessor of `start`
/// (the greatest position at or below it, or the first entry), up to but
/// excluding the first position at or past `end`.
pub open spec fn spec_get_range(es: Seq<(u64, u64)>, start: u64, end: u64) -> Seq<(u64, u64)> {
    let above = first_above(es, start);
    let lo = if above == 0 {
        0
    } else {
        above - 1
    };
    let hi = first_at_or_above(es, end);
    if hi >= lo {
        es.subrange(lo, hi)
    } else {
        es.subrange(lo, lo)
    }
}

/// Where [`first_above`] points: everything before it is at or below `x`,
/// everything from it on is above.
pub proof fn lemma_first_above(es: Seq<(u64, u64)>, x: u64)
    ensures
        0 <= first_above(es, x) <= es.len(),
        forall|i: int| 0 <= i < first_above(es, x) ==> (#[trigger] es[i]).0 <= x,
        entries_sorted(es) ==> forall|i: int|
            first_above(es, x) <= i < es.len() ==> (#[trigger] es[i]).0 > x,
    decreases es.len(),
{
    if es.len() > 0 {
        lemma_first_above(es.drop_first(), x);
        if es.first().0 > x {
            if entries_sorted(es) {
                assert forall|i: int| 0 <= i < es.len() implies (#[trigger] es[i]).0 > x by {
                    if i > 0 {
                        assert(es[0].0 < es[i].0);
                    }
                };
            }
        } else {
            assert forall|i: int| 0 <= i < first_above(es, x) implies (#[trigger] es[i]).0 <= x by {
                if i > 0 {
                    assert(es.drop_first()[i - 1].0 <= x);
                }
            };
            if entries_sorted(es) {
                assert(entries_sorted(es.drop_first())) by {
                    assert(forall|i: int, j: int|
                        0 <= i < j < es.drop_first().len() ==> (#[trigger] es.drop_first()[i]).0 < (
                        #[trigger] es.drop_first()[j]).0);
                };
                assert forall|i: int| first_above(es, x) <= i < es.len() implies (
                #[trigger] es[i]).0 > x by {
                    assert(es.drop_first()[i - 1].0 > x);
                };
            }
        }
    }
}

/// Where [`first_at_or_above`] points, in the same way.
pub proof fn lemma_first_at_or_above(es: Seq<(u64, u64)>, x: u64)
    ensures
        0 <= first_at_or_above(es, x) <= es.len(),
        forall|i: int| 0 <= i < first_at_or_above(es, x) ==> (#[trigger] es[i]).0 < x,
        entries_sorted(es) ==> forall|i: int|
            first_at_or_above(es, x) <= i < es.len() ==> (#[trigger] es[i]).0 >= x,
    decreases es.len(),
{
    if es.len() > 0 {
        lemma_first_at_or_above(es.drop_first(), x);
        if es.first().0 >= x {
            if entries_sorted(es) {
                assert forall|i: int| 0 <= i < es.len() implies (#[trigger] es[i]).0 >= x by {
                    if i > 0 {
                        assert(es[0].0 < es[i].0);
                    }
                };
            }
        } else {
            assert forall|i: int| 0 <= i < first_at_or_above(es, x) implies (#[trigger] es[i]).0
                < x by {
                if i > 0 {
                    assert(es.drop_first()[i - 1].0 < x);
                }
            };
            if entries_sorted(es) {
                assert(entries_sorted(es.drop_first())) by {
                    assert(forall|i: int, j: int|
                        0 <= i < j < es.drop_first().len() ==> (#[trigger] es.drop_first()[i]).0 < (
                        #[trigger] es.drop_first()[j]).0);
                };
                assert forall|i: int| first_at_or_above(es, x) <= i < es.len() implies (
                #[trigger] es[i]).0 >= x by {
                    assert(es.drop_first()[i - 1].0 >= x);
                };
            }
        }
    }
}

impl TableIndex {
    /// Entries sorted strictly ascending by position, blocks laid out
    /// back to back before the on-disk index.
    pub open spec fn wf(&self) -> bool {
        entries_sorted(self.inner@)
    }

    /// All entries, in ascending position order.
    pub fn get_all(&self) -> (r: Vec<(u64, u64)>)
        ensures
            r@ == self.inner@,
    {
        let mut out: Vec<(u64, u64)> = Vec::new();
        let mut i: usize = 0;
        while i < self.inner.len()
            invariant
                i <= self.inner@.len(),
                out@ == self.inner@.take(i as int),
            decreases self.inner@.len() - i,
        {
            out.push(self.inner[i]);
            proof {
                assert(out@ =~= self.inner@.take(i + 1));
            }
            i = i + 1;
        }
        proof {
            assert(self.inner@.take(self.inner@.len() as int) =~= self.inner@);
        }
        out
    }

    /// The `(position, offset)` entries whose block could contain a row
    /// with leading position in `[start, end)`: the scan starts at the
    /// greatest position at or below `start` (or the first entry) and
    /// yields entries while their position is below `end`.
    pub fn get_range(&self, start: u64, end: u64) -> (r: Vec<(u64, u64)>)
        requires
            self.wf(),
        ensures
            r@ == spec_get_range(self.inner@, start, end),
    {
        proof {
            lemma_first_above(self.inner@, start);
            lemma_first_at_or_above(self.inner@, end);
        }
        let n = self.inner.len();
        let mut i: usize = 0;
        while i < n && self.inner[i].0 <= start
            invariant
                i <= n == self.inner@.len(),
                self.wf(),
                forall|k: int| 0 <= k < i ==> (#[trigger] self.inner@[k]).0 <= start,
                i < first_above(self.inner@, start) + 1,
            decreases n - i,
        {
            proof {
                lemma_first_above(self.inner@, start);
            }
            i = i + 1;
        }
        proof {
            lemma_first_above(self.inner@, start);
            assert(i as int == first_above(self.inner@, start));
        }
        let lo = if i == 0 {
            0
        } else {
            i - 1
        };
        let mut j = lo;
        let mut out: Vec<(u64, u64)> = Vec::new();
        while j < n && self.inner[j].0 < end
            invariant
                lo <= j <= n == self.inner@.len(),
                self.wf(),
                forall|k: int| lo <= k < j ==> (#[trigger] self.inner@[k]).0 < end,
                out@ == self.inner@.subrange(lo as int, j as int),
                j as int <= first_at_or_above(self.inner@, end) || j == lo,
            decreases n - j,
        {
            proof {
                lemma_first_at_or_above(self.inner@, end);
            }
            out.push(self.inner[j]);
            proof {
                assert(out@ =~= self.inner@.subrange(lo as int, j + 1));
            }
            j = j + 1;
        }
        proof {
            lemma_first_at_or_above(self.inner@, end);
            let above = first_above(self.inner@, start);
            let hi = first_at_or_above(self.inner@, end);
            if j as int > lo as int {
                // the scan stopped exactly at the first entry at or past `end`
                assert(self.inner@[j - 1].0 < end);
                assert(j as int == hi);
            } else {
                // nothing was taken: either the range is empty or the first
                // candidate already lies at or past `end`
                assert(out@ =~= self.inner@.subrange(lo as int, lo as int));
                if hi > lo as int {
                    assert(j < n && self.inner@[lo as int].0 < end ==> false);
                    assert(j as int == lo as int);
                    if (lo as int) < n as int {
                        assert(self.inner@[lo as int].0 >= end);
                        assert(hi <= lo as int);
                    } else {
                        assert(hi <= n as int);
                    }
                }
            }
            assert(out@ == spec_get_range(self.inner@, start, end));
        }
        out
    }
}

/// The bytes every database file begins with.
pub open spec fn header_magic() -> Seq<u8> {
    seq![0x5au8, 0x79u8, 0x67u8, 0x6fu8, 0x73u8, 0x44u8, 0x42u8]
}

/// The bytes every table index begins with.
pub open spec fn index_magic() -> Seq<u8> {
    seq![0x49u8, 0x4eu8, 0x44u8, 0x45u8, 0x58u8]
}

/// Executable copy of [`header_magic`].
pub fn header_magic_vec() -> (r: Vec<u8>)
    ensures
        r@ == header_magic(),
{
    let mut v: Vec<u8> = Vec::new();
    v.push(0x5a);
    v.push(0x79);
    v.push(0x67);
    v.push(0x6f);
    v.push(0x73);
    v.push(0x44);
    v.push(0x42);
    proof {
        assert(v@ =~= header_magic());
    }
    v
}

/// Executable copy of [`index_magic`].
pub fn index_magic_vec() -> (r: Vec<u8>)
    ensures
        r@ == index_magic(),
{
    let mut v: Vec<u8> = Vec::new();
    v.push(0x49);
    v.push(0x4e);
    v.push(0x44);
    v.push(0x45);
    v.push(0x58);
    proof {
        assert(v@ =~= index_magic());
    }
    v
}

/// The file begins with the database magic.
pub open spec fn has_magic(b: Seq<u8>) -> bool {
    b.len() >= 7 && b.subrange(0, 7) == header_magic()
}

/// One column as the header describes it.
#[derive(Debug, Clone)]
pub struct ColumnHeader {
    pub type_: ColumnType,
    pub name: String,
}

/// One table as the header describes it: its chromosome and the byte
/// offset of its on-disk index.
#[derive(Debug, Clone, Copy, PartialEq, Eq, Structural)]
pub struct TableHeader {
    pub chromosome: u8,
    pub offset: u64,
}

/// One dataset as the header describes it.
#[derive(Debug, Clone)]
pub struct DatasetHeader {
    pub name: String,
    pub columns: Vec<ColumnHeader>,
    pub tables: Vec<TableHeader>,
}

/// The parsed database header.
#[derive(Debug, Clone)]
pub struct DatabaseHeader {
    pub version: u8,
    pub datasets: Vec<DatasetHeader>,
}

/// The mathematical value of a column header.
pub struct ColumnHeaderModel {
    pub type_: ColumnType,
    pub name: Seq<char>,
}

/// The mathematical value of a dataset header.
pub struct DatasetHeaderModel {
    pub name: Seq<char>,
    pub columns: Seq<ColumnHeaderModel>,
    pub tables: Seq<TableHeader>,
}

/// The mathematical value of the database header.
pub struct DatabaseHeaderModel {
    pub version: u8,
    pub datasets: Seq<DatasetHeaderModel>,
}

impl View for ColumnHeader {
    type V = ColumnHeaderModel;

    open spec fn view(&self) -> ColumnHeaderModel {
        ColumnHeaderModel { type_: self.type_, name: self.name@ }
    }
}

impl View for DatasetHeader {
    type V = DatasetHeaderModel;

    open spec fn view(&self) -> DatasetHeaderModel {
        DatasetHeaderModel {
            name: self.name@,
            columns: self.columns@.map_values(|c: ColumnHeader| c@),
            tables: self.tables@,
        }
    }
}

impl View for DatabaseHeader {
    type V = DatabaseHeaderModel;

    open spec fn view(&self) -> DatabaseHeaderModel {
        DatabaseHeaderModel {
            version: self.version,
            datasets: self.datasets@.map_values(|d: DatasetHeader| d@),
        }
    }
}

/// One column header at `pos`: a type tag byte, then a length-prefixed name.
pub open spec fn parse_column(b: Seq<u8>, pos: int) -> Option<(ColumnHeaderModel, int)> {
    if 0 <= pos < b.len() {
        let tag = b[pos];
        if tag <= 3 {
            let t = if tag == 0 {
                ColumnType::Integer
            } else if tag == 1 {
                ColumnType::Float
            } else if tag == 2 {
                ColumnType::VolatileString
            } else {
                ColumnType::HashtableString
            };
            match string_at(b, pos + 1) {
                Some((name, n)) => Some((ColumnHeaderModel { type_: t, name }, pos + 1 + n)),
                None => None,
            }
        } else {
            None
        }
    } else {
        None
    }
}

/// `n` column headers back to back from `pos`.
pub open spec fn parse_columns(b: Seq<u8>, pos: int, n: nat) -> Option<(Seq<ColumnHeaderModel>, int)>
    decreases n,
{
    if n == 0 {
        Some((Seq::empty(), pos))
    } else {
        match parse_column(b, pos) {
            Some((c, p2)) => match parse_columns(b, p2, (n - 1) as nat) {
                Some((cs, p3)) => Some((seq![c] + cs, p3)),
                None => None,
            },
            None => None,
        }
    }
}

/// One table entry at `pos`: a chromosome byte, then an 8-byte big-endian
/// index offset.
pub open spec fn parse_table_entry(b: Seq<u8>, pos: int) -> Option<(TableHeader, int)> {
    if 0 <= pos && pos + 9 <= b.len() {
        Some(
            (
                TableHeader {
                    chromosome: b[pos],
                    offset: be_load(b.subrange(pos + 1, pos + 9)) as u64,
                },
                pos + 9,
            ),
        )
    } else {
        None
    }
}

/// `n` table entries back to back from `pos`.
pub open spec fn parse_table_entries(b: Seq<u8>, pos: int, n: nat) -> Option<(Seq<TableHeader>, int)>
    decreases n,
{
    if n == 0 {
        Some((Seq::empty(), pos))
    } else {
        match parse_table_entry(b, pos) {
            Some((t, p2)) => match parse_table_entries(b, p2, (n - 1) as nat) {
                Some((ts, p3)) => Some((seq![t] + ts, p3)),
                None => None,
            },
            None => None,
        }
    }
}

/// One dataset header at `pos`: a length-prefixed name, a column count
/// with that many column headers, then a file count with that many
/// `(chromosome, offset)` entries.
pub open spec fn parse_dataset(b: Seq<u8>, pos: int) -> Option<(DatasetHeaderModel, int)> {
    match string_at(b, pos) {
        Some((name, n)) => {
            let p1 = pos + n;
            if p1 < b.len() {
                let ncols = b[p1];
                match parse_columns(b, p1 + 1, ncols as nat) {
                    Some((cols, p2)) => {
                        if p2 < b.len() {
                            let nfiles = b[p2];
                            match parse_table_entries(b, p2 + 1, nfiles as nat) {
                                Some((tables, p3)) => Some(
                                    (DatasetHeaderModel { name, columns: cols, tables }, p3),
                                ),
                                None => None,
                            }
                        } else {
                            None
                        }
                    },
                    None => None,
                }
            } else {
                None
            }
        },
        None => None,
    }
}

/// `n` dataset headers back to back from `pos`.
pub open spec fn parse_datasets(b: Seq<u8>, pos: int, n: nat) -> Option<(Seq<DatasetHeaderModel>, int)>
    decreases n,
{
    if n == 0 {
        Some((Seq::empty(), pos))
    } else {
        match parse_dataset(b, pos) {
            Some((d, p2)) => match parse_datasets(b, p2, (n - 1) as nat) {
                Some((ds, p3)) => Some((seq![d] + ds, p3)),
                None => None,
            },
            None => None,
        }
    }
}

/// The whole database header: the magic, a version byte, a dataset count
/// and that many dataset headers.  Bytes after the header are the table
/// payloads and are not read here.
pub open spec fn parse_header(b: Seq<u8>) -> Option<DatabaseHeaderModel> {
    if has_magic(b) && b.len() >= 9 {
        match parse_datasets(b, 9, b[8] as nat) {
            Some((ds, _)) => Some(DatabaseHeaderModel { version: b[7], datasets: ds }),
            None => None,
        }
    } else {
        None
    }
}

/// `n` index entries back to back from `pos`, each a varint position
/// followed by a varint offset.
pub open spec fn parse_index_entries(b: Seq<u8>, pos: int, n: nat) -> Option<(Seq<(u64, u64)>, int)>
    decreases n,
{
    if n == 0 {
        Some((Seq::empty(), pos))
    } else {
        match vint_at(b, pos) {
            Some((p, l1)) => match vint_at(b, pos + l1) {
                Some((o, l2)) => match parse_index_entries(b, pos + l1 + l2, (n - 1) as nat) {
                    Some((es, p3)) => Some((seq![(p, o)] + es, p3)),
                    None => None,
                },
                None => None,
            },
            None => None,
        }
    }
}

/// The mathematical value of one on-disk table index at `off`: the
/// `INDEX` magic, the largest position, the end offset, an entry count
/// and that many entries.
pub open spec fn parse_table_index(b: Seq<u8>, off: int) -> Option<TableIndexModel> {
    if 0 <= off && off + 29 <= b.len() && b.subrange(off, off + 5) == index_magic() {
        let max_position = be_load(b.subrange(off + 5, off + 13)) as u64;
        let end_offset = be_load(b.subrange(off + 13, off + 21)) as u64;
        let n = be_load(b.subrange(off + 21, off + 29));
        match parse_index_entries(b, off + 29, n as nat) {
            Some((es, _)) => Some(
                TableIndexModel {
                    entries: es,
                    max_position: max_position,
                    index_start_offset: off as u64,
                    index_end_offset: end_offset,
                },
            ),
            None => None,
        }
    } else {
        None
    }
}

/// The mathematical value of a parsed table index.
pub struct TableIndexModel {
    pub entries: Seq<(u64, u64)>,
    pub max_position: u64,
    pub index_start_offset: u64,
    pub index_end_offset: u64,
}

impl View for TableIndex {
    type V = TableIndexModel;

    open spec fn view(&self) -> TableIndexModel {
        TableIndexModel {
            entries: self.inner@,
            max_position: self.max_position,
            index_start_offset: self.index_start_offset,
            index_end_offset: self.index_end_offset,
        }
    }
}

/// Reads a database image: the header once, then one table index per
/// queried table.
pub struct DatabaseQueryClient {
    /// The complete file image.
    pub data: Vec<u8>,
}

impl DatabaseQueryClient {
    pub fn new(data: Vec<u8>) -> (r: Self)
        ensures
            r.data == data,
    {
        DatabaseQueryClient { data }
    }

    /// Parse the database header.  Succeeds exactly on a well-formed
    /// version-1 header; the input bytes are never modified.  A file
    /// that does not begin with the database magic is rejected as
    /// invalid before anything else is read.
    pub fn read_database_header(&self) -> (r: Result<DatabaseHeader, DbError>)
        ensures
            match r {
                Ok(h) => parse_header(self.data@) == Some(h@) && h@.version == 1,
                Err(e) => {
                    &&& !(parse_header(self.data@) matches Some(m) && m.version == 1)
                    &&& !has_magic(self.data@) ==> e is InvalidFormat
                    &&& (has_magic(self.data@) && self.data@.len() >= 9 && self.data@[7] != 1)
                        ==> e is UnsupportedVersion
                    &&& (has_magic(self.data@) && self.data@.len() >= 9 && self.data@[7] == 1)
                        ==> e is InvalidFormat
                },
            },
    {
        let b = self.data.as_slice();
        let magic = header_magic_vec();
        if b.len() < 9 {
            return Err(DbError::InvalidFormat(String::from_str("file too short for a header")));
        }
        if !crate::config::bytes_match_at(b, magic.as_slice(), 0) {
            proof {
                assert(!has_magic(b@));
            }
            return Err(DbError::InvalidFormat(String::from_str("not a database file")));
        }
        let version = b[7];
        if version != 1 {
            return Err(DbError::UnsupportedVersion(version));
        }
        let num_datasets = b[8] as usize;
        let mut datasets: Vec<DatasetHeader> = Vec::new();
        let mut pos: usize = 9;
        let mut i: usize = 0;
        while i < num_datasets
            invariant
                i <= num_datasets,
                pos <= b@.len() <= usize::MAX,
                b@ == self.data@,
                b@.len() >= 9,
                has_magic(b@),
                version == b@[7] && version == 1,
                num_datasets == b@[8] as int,
                match parse_datasets(b@, pos as int, (num_datasets - i) as nat) {
                    Some(ds) => parse_datasets(b@, 9, num_datasets as nat) matches Some(whole)
                        && whole.0 == datasets@.map_values(|d: DatasetHeader| d@) + ds.0,
                    None => parse_datasets(b@, 9, num_datasets as nat) is None,
                },
            decreases num_datasets - i,
        {
            let ghost before = datasets@.map_values(|d: DatasetHeader| d@);
            let d = match Self::read_dataset_header(b, pos) {
                Ok(res) => res,
                Err(e) => {
                    return Err(e);
                },
            };
            pos = d.1;
            datasets.push(d.0);
            i = i + 1;
            proof {
                let dd = datasets@.last();
                assert(datasets@.map_values(|x: DatasetHeader| x@) =~= before + seq![dd@]);
                match parse_datasets(b@, pos as int, (num_datasets - i) as nat) {
                    Some(ds) => {
                        assert(before + (seq![dd@] + ds.0) =~= (before + seq![dd@]) + ds.0);
                    },
                    None => {},
                }
            }
        }
        proof {
            match parse_datasets(b@, pos as int, 0) {
                Some(ds) => {
                    assert(datasets@.map_values(|d: DatasetHeader| d@) + ds.0 =~= datasets@.map_values(
                        |d: DatasetHeader| d@,
                    ));
                },
                None => {},
            }
        }
        Ok(DatabaseHeader { version, datasets })
    }

    /// Read one dataset header at `pos`.
    fn read_dataset_header(b: &[u8], pos: usize) -> (r: Result<(DatasetHeader, usize), DbError>)
        requires
            pos <= b@.len(),
        ensures
            match r {
                Ok((d, p2)) => parse_dataset(b@, pos as int) == Some((d@, p2 as int)) && pos <= p2
                    <= b@.len(),
                Err(e) => parse_dataset(b@, pos as int) is None && e is InvalidFormat,
            },
    {
        let blen = b.len();
        let (name, n) = match read_string_u8(b, pos) {
            Ok(res) => res,
            Err(e) => {
                return Err(e);
            },
        };
        proof {
            assert(n >= 1 && pos + n <= b@.len());
        }
        let p1 = pos + n;
        let (ncols, _) = match read_u8(b, p1) {
            Ok(res) => res,
            Err(e) => {
                return Err(e);
            },
        };
        let mut columns: Vec<ColumnHeader> = Vec::new();
        let mut pos2: usize = p1 + 1;
        let mut i: usize = 0;
        while i < ncols as usize
            invariant
                i <= ncols as int,
                pos < pos2 <= b@.len() <= usize::MAX,
                string_at(b@, pos as int) == Some((name@, n as int)),
                p1 == pos + n,
                p1 < b@.len(),
                ncols == b@[p1 as int],
                match parse_columns(b@, pos2 as int, (ncols - i) as nat) {
                    Some(cs) => parse_columns(b@, p1 + 1, ncols as nat) matches Some(whole)
                        && whole.0 == columns@.map_values(|c: ColumnHeader| c@) + cs.0 && whole.1
                        == cs.1,
                    None => parse_columns(b@, p1 + 1, ncols as nat) is None,
                },
            decreases ncols - i,
        {
            let ghost before = columns@.map_values(|c: ColumnHeader| c@);
            let (tag, _) = match read_u8(b, pos2) {
                Ok(res) => res,
                Err(e) => {
                    return Err(e);
                },
            };
            let type_ = match ColumnType::try_from(tag) {
                Ok(t) => t,
                Err(()) => {
                    return Err(
                        DbError::InvalidFormat(String::from_str("unknown column type tag")),
                    );
                },
            };
            let (cname, cn) = match read_string_u8(b, pos2 + 1) {
                Ok(res) => res,
                Err(e) => {
                    return Err(e);
                },
            };
            proof {
                assert(cn >= 1 && pos2 + 1 + cn <= b@.len());
            }
            columns.push(ColumnHeader { type_, name: cname });
            pos2 = pos2 + 1 + cn;
            i = i + 1;
            proof {
                let cc = columns@.last();
                assert(columns@.map_values(|x: ColumnHeader| x@) =~= before + seq![cc@]);
                match parse_columns(b@, pos2 as int, (ncols - i) as nat) {
                    Some(cs) => {
                        assert(before + (seq![cc@] + cs.0) =~= (before + seq![cc@]) + cs.0);
                    },
                    None => {},
                }
            }
        }
        proof {
            match parse_columns(b@, pos2 as int, 0) {
                Some(cs) => {
                    assert(columns@.map_values(|c: ColumnHeader| c@) + cs.0 =~= columns@.map_values(
                        |c: ColumnHeader| c@,
                    ));
                },
                None => {},
            }
        }
        let (nfiles, _) = match read_u8(b, pos2) {
            Ok(res) => res,
            Err(e) => {
                return Err(e);
            },
        };
        let ghost cols_end = pos2 as int;
        let mut tables: Vec<TableHeader> = Vec::new();
        let mut pos3: usize = pos2 + 1;
        let mut j: usize = 0;
        while j < nfiles as usize
            invariant
                j <= nfiles as int,
                pos < pos3,
                pos3 <= b@.len() <= usize::MAX,
                string_at(b@, pos as int) == Some((name@, n as int)),
                p1 == pos + n,
                p1 < b@.len(),
                ncols == b@[p1 as int],
                cols_end == pos2 as int,
                pos2 < b@.len(),
                nfiles == b@[pos2 as int],
                parse_columns(b@, p1 + 1, ncols as nat) == Some(
                    (columns@.map_values(|c: ColumnHeader| c@), pos2 as int),
                ),
                match parse_table_entries(b@, pos3 as int, (nfiles - j) as nat) {
                    Some(ts) => parse_table_entries(b@, pos2 + 1, nfiles as nat) matches Some(
                        whole,
                    ) && whole.0 == tables@ + ts.0 && whole.1 == ts.1,
                    None => parse_table_entries(b@, pos2 + 1, nfiles as nat) is None,
                },
            decreases nfiles - j,
        {
            let ghost before = tables@;
            let (chromosome, _) = match read_u8(b, pos3) {
                Ok(res) => res,
                Err(e) => {
                    return Err(e);
                },
            };
            let (offset, p4) = match read_u64(b, pos3 + 1) {
                Ok(res) => res,
                Err(e) => {
                    return Err(e);
                },
            };
            proof {
                crate::deserialize::lemma_be_load_bound(b@.subrange(pos3 + 1, pos3 + 9));
                vstd::arithmetic::power2::lemma2_to64_rest();
            }
            tables.push(TableHeader { chromosome, offset });
            pos3 = p4;
            j = j + 1;
            proof {
                let tt = tables@.last();
                assert(tables@ =~= before + seq![tt]);
                match parse_table_entries(b@, pos3 as int, (nfiles - j) as nat) {
                    Some(ts) => {
                        assert(before + (seq![tt] + ts.0) =~= (before + seq![tt]) + ts.0);
                    },
                    None => {},
                }
            }
        }
        proof {
            match parse_table_entries(b@, pos3 as int, 0) {
                Some(ts) => {
                    assert(tables@ + ts.0 =~= tables@);
                },
                None => {},
            }
        }
        Ok((DatasetHeader { name, columns, tables }, pos3))
    }

    /// Read one `(position, offset)` index entry: two varints.
    fn read_index_entry(b: &[u8], pos: usize) -> (r: Result<((u64, u64), usize), DbError>)
        requires
            pos <= b@.len(),
        ensures
            match r {
                Ok((entry, p2)) => {
                    &&& vint_at(b@, pos as int) matches Some(v1) && v1.0 == entry.0
                    &&& vint_at(b@, pos + (vint_at(b@, pos as int)->Some_0.1)) matches Some(v2)
                        && v2.0 == entry.1
                    &&& p2 as int == pos + (vint_at(b@, pos as int)->Some_0.1) + (vint_at(
                        b@,
                        pos + (vint_at(b@, pos as int)->Some_0.1),
                    )->Some_0.1)
                    &&& pos < p2 <= b@.len()
                },
                Err(e) => (vint_at(b@, pos as int) is None || vint_at(
                    b@,
                    pos + (vint_at(b@, pos as int)->Some_0.1),
                ) is None) && e is InvalidFormat,
            },
    {
        let blen = b.len();
        let (p, l1) = match read_vint_u64(b, pos) {
            Ok(res) => res,
            Err(e) => {
                return Err(e);
            },
        };
        let (o, l2) = match read_vint_u64(b, pos + l1) {
            Ok(res) => res,
            Err(e) => {
                return Err(e);
            },
        };
        Ok(((p, o), pos + l1 + l2))
    }

    /// Read `n` varint index entries back to back from `pos`.
    #[verifier::rlimit(100)]
    #[verifier::spinoff_prover]
    fn read_index_entries(b: &[u8], pos: usize, n: usize) -> (r: Result<Vec<(u64, u64)>, DbError>)
        requires
            pos <= b@.len(),
        ensures
            match r {
                Ok(es) => parse_index_entries(b@, pos as int, n as nat) matches Some(whole)
                    && whole.0 == es@,
                Err(e) => parse_index_entries(b@, pos as int, n as nat) is None && e
                    is InvalidFormat,
            },
    {
        let mut entries: Vec<(u64, u64)> = Vec::new();
        let mut cur = pos;
        let mut i: usize = 0;
        let blen = b.len();
        proof {
            match parse_index_entries(b@, pos as int, n as nat) {
                Some(es) => {
                    assert(Seq::<(u64, u64)>::empty() + es.0 =~= es.0);
                },
                None => {},
            }
        }
        while i < n
            invariant
                i <= n,
                cur <= b@.len() <= usize::MAX,
                entries@.len() == i,
                match parse_index_entries(b@, cur as int, (n - i) as nat) {
                    Some(es) => parse_index_entries(b@, pos as int, n as nat) matches Some(whole)
                        && whole.0 == entries@ + es.0,
                    None => parse_index_entries(b@, pos as int, n as nat) is None,
                },
            decreases n - i,
        {
            let ghost before = entries@;
            let (entry, p2) = match Self::read_index_entry(b, cur) {
                Ok(res) => res,
                Err(e) => {
                    return Err(e);
                },
            };
            entries.push(entry);
            cur = p2;
            i = i + 1;
            proof {
                let ee = entries@.last();
                assert(entries@ =~= before + seq![ee]);
                match parse_index_entries(b@, cur as int, (n - i) as nat) {
                    Some(es) => {
                        assert(before + (seq![ee] + es.0) =~= (before + seq![ee]) + es.0);
                    },
                    None => {},
                }
            }
        }
        proof {
            match parse_index_entries(b@, cur as int, 0) {
                Some(es) => {
                    assert(entries@ + es.0 =~= entries@);
                },
                None => {},
            }
        }
        Ok(entries)
    }

    /// Parse the table index whose `INDEX` magic stands at `offset`.
    /// Succeeds exactly on a well-formed index whose entry positions are
    /// strictly increasing (as they are in every built file).
    #[verifier::rlimit(100)]
    #[verifier::spinoff_prover]
    pub fn read_table_index(&self, offset: u64) -> (r: Result<TableIndex, DbError>)
        ensures
            match r {
                Ok(ti) => parse_table_index(self.data@, offset as int) == Some(ti@) && ti.wf(),
                Err(e) => {
                    &&& match parse_table_index(self.data@, offset as int) {
                        Some(m) => !entries_sorted(m.entries),
                        None => true,
                    }
                    &&& (e is InvalidFormat || e is OutOfRange)
                    &&& (e is OutOfRange ==> offset > u64::MAX - 29)
                },
            },
    {
        let b = self.data.as_slice();
        let blen = b.len();
        let magic = index_magic_vec();
        if offset > u64::MAX - 29 {
            proof {
                assert(b@.len() <= usize::MAX);
            }
            return Err(DbError::OutOfRange(String::from_str("table index offset overflows")));
        }
        if (b.len() as u64) < offset + 29 {
            return Err(
                DbError::InvalidFormat(
                    String::from_str("table index out of bounds at offset ").concat(
                        crate::u64_to_string(offset).as_str(),
                    ),
                ),
            );
        }
        let off = offset as usize;
        if !crate::config::bytes_match_at(b, magic.as_slice(), off) {
            return Err(
                DbError::InvalidFormat(
                    String::from_str("invalid table index magic at offset ").concat(
                        crate::u64_to_string(offset).as_str(),
                    ),
                ),
            );
        }
        let (max_position, _) = match read_u64(b, off + 5) {
            Ok(res) => res,
            Err(e) => {
                return Err(e);
            },
        };
        let (end_offset, _) = match read_u64(b, off + 13) {
            Ok(res) => res,
            Err(e) => {
                return Err(e);
            },
        };
        let (n64, _) = match read_u64(b, off + 21) {
            Ok(res) => res,
            Err(e) => {
                return Err(e);
            },
        };
        proof {
            crate::deserialize::lemma_be_load_bound(b@.subrange(off + 5, off + 13));
            crate::deserialize::lemma_be_load_bound(b@.subrange(off + 13, off + 21));
            crate::deserialize::lemma_be_load_bound(b@.subrange(off + 21, off + 29));
            vstd::arithmetic::power2::lemma2_to64_rest();
        }
        if n64 > (b.len() as u64) {
            proof {
                lemma_index_entries_need_bytes(b@, off + 29, n64 as nat);
            }
            return Err(DbError::InvalidFormat(String::from_str("index entry count overflows")));
        }
        let n = n64 as usize;
        let entries = match Self::read_index_entries(b, off + 29, n) {
            Ok(es) => es,
            Err(e) => {
                return Err(e);
            },
        };
        // a built file's entries are strictly increasing; reject anything else
        proof {
            assert(parse_table_index(self.data@, offset as int) matches Some(m) && m.entries
                == entries@);
        }
        let mut k: usize = 1;
        while k < entries.len()
            invariant
                1 <= k,
                entries@.len() >= 1 ==> k <= entries@.len(),
                b@ == self.data@,
                offset == off,
                off + 29 <= b@.len(),
                b@.subrange(off as int, off + 5) == index_magic(),
                max_position as int == be_load(b@.subrange(off + 5, off + 13)),
                end_offset as int == be_load(b@.subrange(off + 13, off + 21)),
                n as int == be_load(b@.subrange(off + 21, off + 29)),
                parse_index_entries(b@, off + 29, n as nat) matches Some(whole) && whole.0
                    == entries@,
                forall|a: int, c: int| 0 <= a < c < k && c < entries@.len() ==> (
                #[trigger] entries@[a]).0 < (#[trigger] entries@[c]).0,
            decreases entries@.len() - k,
        {
            if entries[k - 1].0 >= entries[k].0 {
                proof {
                    assert(entries@[k - 1].0 >= entries@[k as int].0);
                    assert(!entries_sorted(entries@));
                    assert(parse_table_index(self.data@, offset as int) matches Some(mm)
                        && !entries_sorted(mm.entries));
                }
                return Err(
                    DbError::InvalidFormat(
                        String::from_str("table index positions are not strictly increasing"),
                    ),
                );
            }
            k = k + 1;
            proof {
                assert forall|a: int, c: int| 0 <= a < c < k && c < entries@.len() implies (
                #[trigger] entries@[a]).0 < (#[trigger] entries@[c]).0 by {
                    if c == k - 1 {
                        if a < c - 1 {
                            assert(entries@[a].0 < entries@[c - 1].0);
                        }
                    }
                }
            }
        }
        proof {
            assert(entries_sorted(entries@));
        }
        Ok(
            TableIndex {
                inner: entries,
                max_position,
                index_start_offset: offset,
                index_end_offset: end_offset,
            },
        )
    }
}

/// Every index entry takes at least two bytes, so a count larger than the
/// buffer cannot parse.
proof fn lemma_index_entries_need_bytes(b: Seq<u8>, pos: int, n: nat)
    requires
        0 <= pos,
    ensures
        parse_index_entries(b, pos, n) matches Some(r) ==> r.1 >= pos + 2 * n && (n > 0 ==> r.1
            <= b.len()),
    decreases n,
{
    if n > 0 {
        match vint_at(b, pos) {
            Some((p, l1)) => {
                assert(1 <= l1 && pos + l1 <= b.len());
                match vint_at(b, pos + l1) {
                    Some((o, l2)) => {
                        assert(1 <= l2 && pos + l1 + l2 <= b.len());
                        lemma_index_entries_need_bytes(b, pos + l1 + l2, (n - 1) as nat);
                    },
                    None => {},
                }
            },
            None => {},
        }
    }
}

impl TableIndex {
    /// Check that the entry positions are strictly increasing.
    pub fn check_sorted(&self) -> (r: bool)
        ensures
            r == entries_sorted(self.inner@),
    {
        let mut k: usize = 1;
        while k < self.inner.len()
            invariant
                1 <= k,
                self.inner@.len() >= 1 ==> k <= self.inner@.len(),
                forall|a: int, c: int| 0 <= a < c < k && c < self.inner@.len() ==> (
                #[trigger] self.inner@[a]).0 < (#[trigger] self.inner@[c]).0,
            decreases self.inner@.len() - k,
        {
            if self.inner[k - 1].0 >= self.inner[k].0 {
                proof {
                    assert(self.inner@[k - 1].0 >= self.inner@[k as int].0);
                }
                return false;
            }
            k = k + 1;
            proof {
                assert forall|a: int, c: int| 0 <= a < c < k && c < self.inner@.len() implies (
                #[trigger] self.inner@[a]).0 < (#[trigger] self.inner@[c]).0 by {
                    if c == k - 1 {
                        if a < c - 1 {
                            assert(self.inner@[a].0 < self.inner@[c - 1].0);
                        }
                    }
                }
            }
        }
        true
    }
}

/// Scans one table's blocks for ranges of leading positions.  It holds
/// the whole file image, the table's sparse index, the dataset's column
/// types and its compression algorithm.
pub struct RowReader {
    pub data: Vec<u8>,
    pub index: TableIndex,
    pub column_types: Vec<ColumnType>,
    pub compression_algorithm: CompressionAlgorithm,
    pub chromosome: u8,
}

/// First byte of block `k` of a table whose index entries are `entries`.
pub open spec fn tbl_block_start(entries: Seq<(u64, u64)>, k: int) -> int {
    entries[k].1 as int
}

/// One past the last byte of block `k`: the next block's offset, or the
/// on-disk index (at `iso`) for the last block.
pub open spec fn tbl_block_end(entries: Seq<(u64, u64)>, iso: int, k: int) -> int {
    if k + 1 < entries.len() {
        entries[k + 1].1 as int
    } else {
        iso
    }
}

/// The compressed bytes of block `k` in the file image.
pub open spec fn tbl_compressed_block(
    file: Seq<u8>,
    entries: Seq<(u64, u64)>,
    iso: int,
    k: int,
) -> Seq<u8> {
    file.subrange(tbl_block_start(entries, k), tbl_block_end(entries, iso, k))
}

/// The serialized bytes of block `k` after decompression.
pub open spec fn tbl_block_data(
    file: Seq<u8>,
    entries: Seq<(u64, u64)>,
    iso: int,
    algo: CompressionAlgorithm,
    k: int,
) -> Seq<u8> {
    decompress_of(algo, tbl_compressed_block(file, entries, iso, k))->Some_0
}

/// The rows of block `k`.
pub open spec fn tbl_block_rows(
    file: Seq<u8>,
    entries: Seq<(u64, u64)>,
    iso: int,
    types: Seq<ColumnType>,
    algo: CompressionAlgorithm,
    k: int,
) -> Seq<Seq<CellModel>> {
    parse_range(
        types,
        tbl_block_data(file, entries, iso, algo, k),
        0,
        full_scan_start(),
        full_scan_end(),
    )->Some_0
}

/// Block `k` decompresses, parses back to the bytes it came from, holds
/// at least one sorted, schema-conforming row, starts at its index
/// position, and keeps its rows inside its key interval.
pub open spec fn tbl_block_wf(
    file: Seq<u8>,
    entries: Seq<(u64, u64)>,
    iso: int,
    types: Seq<ColumnType>,
    algo: CompressionAlgorithm,
    k: int,
) -> bool {
    &&& tbl_block_start(entries, k) <= tbl_block_end(entries, iso, k)
    &&& tbl_block_end(entries, iso, k) <= iso
    &&& decompress_of(algo, tbl_compressed_block(file, entries, iso, k)) is Some
    &&& parse_range(
        types,
        tbl_block_data(file, entries, iso, algo, k),
        0,
        full_scan_start(),
        full_scan_end(),
    ) is Some
    &&& tbl_block_data(file, entries, iso, algo, k) == block_bytes(
        tbl_block_rows(file, entries, iso, types, algo, k),
    )
    &&& block_conforms(tbl_block_rows(file, entries, iso, types, algo, k), types)
    &&& rows_sorted(tbl_block_rows(file, entries, iso, types, algo, k))
    &&& tbl_block_rows(file, entries, iso, types, algo, k).len() >= 1
    &&& row_pos(tbl_block_rows(file, entries, iso, types, algo, k).first()) == entries[k].0 as int
    &&& forall|j: int|
        0 <= j < tbl_block_rows(file, entries, iso, types, algo, k).len() ==> entries[k].0 as int
            <= row_pos(#[trigger] tbl_block_rows(file, entries, iso, types, algo, k)[j]) && (k + 1
            < entries.len() ==> row_pos(tbl_block_rows(file, entries, iso, types, algo, k)[j])
            < entries[k + 1].0 as int)
}

/// A valid table inside a file image: a sorted index with one entry per
/// block, well-formed blocks laid out before the index at `iso`, and the
/// recorded maximum position.
pub open spec fn table_wf(
    file: Seq<u8>,
    entries: Seq<(u64, u64)>,
    iso: int,
    maxpos: u64,
    types: Seq<ColumnType>,
    algo: CompressionAlgorithm,
) -> bool {
    &&& entries_sorted(entries)
    &&& entries.len() >= 1
    &&& types.len() >= 1
    &&& types[0] == ColumnType::Integer
    &&& 0 <= iso <= file.len()
    &&& forall|k: int| 0 <= k < entries.len() ==> tbl_block_wf(file, entries, iso, types, algo, k)
    &&& maxpos as int == row_pos(
        tbl_block_rows(file, entries, iso, types, algo, entries.len() - 1).last(),
    )
}

/// The rows of blocks `k` onward, in order.
pub open spec fn tbl_rows_from(
    file: Seq<u8>,
    entries: Seq<(u64, u64)>,
    iso: int,
    types: Seq<ColumnType>,
    algo: CompressionAlgorithm,
    k: int,
) -> Seq<Seq<CellModel>>
    decreases entries.len() - k,
{
    if k < 0 || k >= entries.len() {
        Seq::empty()
    } else {
        tbl_block_rows(file, entries, iso, types, algo, k) + tbl_rows_from(
            file,
            entries,
            iso,
            types,
            algo,
            k + 1,
        )
    }
}

/// All rows of a table inside a file image, in ascending position order.
pub open spec fn table_rows_of(
    file: Seq<u8>,
    entries: Seq<(u64, u64)>,
    iso: int,
    types: Seq<ColumnType>,
    algo: CompressionAlgorithm,
) -> Seq<Seq<CellModel>> {
    tbl_rows_from(file, entries, iso, types, algo, 0)
}

impl RowReader {
    pub open spec fn n_blocks(&self) -> int {
        self.index.inner@.len() as int
    }

    /// First byte of block `k` in the file image.
    pub open spec fn block_start(&self, k: int) -> int {
        tbl_block_start(self.index.inner@, k)
    }

    /// One past the last byte of block `k`: the next block's offset, or
    /// the on-disk index for the last block.
    pub open spec fn block_end(&self, k: int) -> int {
        tbl_block_end(self.index.inner@, self.index.index_start_offset as int, k)
    }

    /// The compressed bytes of block `k`.
    pub open spec fn compressed_block(&self, k: int) -> Seq<u8> {
        tbl_compressed_block(self.data@, self.index.inner@, self.index.index_start_offset as int, k)
    }

    /// The serialized bytes of block `k` after decompression.
    pub open spec fn block_data(&self, k: int) -> Seq<u8> {
        tbl_block_data(
            self.data@,
            self.index.inner@,
            self.index.index_start_offset as int,
            self.compression_algorithm,
            k,
        )
    }

    /// The rows of block `k`.
    pub open spec fn block_rows(&self, k: int) -> Seq<Seq<CellModel>> {
        tbl_block_rows(
            self.data@,
            self.index.inner@,
            self.index.index_start_offset as int,
            self.column_types@,
            self.compression_algorithm,
            k,
        )
    }

    /// Block `k` is well formed inside this reader's file image.
    pub open spec fn block_wf(&self, k: int) -> bool {
        tbl_block_wf(
            self.data@,
            self.index.inner@,
            self.index.index_start_offset as int,
            self.column_types@,
            self.compression_algorithm,
            k,
        )
    }

    /// The reader describes a valid table: a sorted index with one entry
    /// per block, well-formed blocks, and the recorded maximum position.
    pub open spec fn wf(&self) -> bool {
        table_wf(
            self.data@,
            self.index.inner@,
            self.index.index_start_offset as int,
            self.index.max_position,
            self.column_types@,
            self.compression_algorithm,
        )
    }

    /// The rows of blocks `k` onward, in order.
    pub open spec fn rows_from(&self, k: int) -> Seq<Seq<CellModel>> {
        tbl_rows_from(
            self.data@,
            self.index.inner@,
            self.index.index_start_offset as int,
            self.column_types@,
            self.compression_algorithm,
            k,
        )
    }

    /// All rows of the table, in ascending position order.
    pub open spec fn table_rows(&self) -> Seq<Seq<CellModel>> {
        self.rows_from(0)
    }

    pub fn new(
        data: Vec<u8>,
        index: TableIndex,
        column_types: Vec<ColumnType>,
        compression_algorithm: CompressionAlgorithm,
        chromosome: u8,
    ) -> (r: Self)
        ensures
            r.data == data,
            r.index == index,
            r.column_types == column_types,
            r.compression_algorithm == compression_algorithm,
            r.chromosome == chromosome,
    {
        RowReader { data, index, column_types, compression_algorithm, chromosome }
    }

    /// Every row of blocks `k` onward has a position of at most the
    /// recorded maximum.
    proof fn lemma_rows_le_max(&self, k: int)
        requires
            self.wf(),
            0 <= k < self.n_blocks(),
        ensures
            forall|j: int|
                0 <= j < self.block_rows(k).len() ==> row_pos(#[trigger] self.block_rows(k)[j])
                    <= self.index.max_position as int,
        decreases self.n_blocks() - k,
    {
        assert(self.block_wf(k));
        if k == self.n_blocks() - 1 {
            assert forall|j: int| 0 <= j < self.block_rows(k).len() implies row_pos(
                #[trigger] self.block_rows(k)[j],
            ) <= self.index.max_position as int by {
                assert(row_pos(self.block_rows(k)[j]) <= row_pos(
                    self.block_rows(k)[self.block_rows(k).len() - 1],
                ));
            };
        } else {
            self.lemma_rows_le_max(k + 1);
            assert(self.block_wf(k + 1));
            assert(row_pos(self.block_rows(k + 1).first()) <= self.index.max_position as int);
            assert forall|j: int| 0 <= j < self.block_rows(k).len() implies row_pos(
                #[trigger] self.block_rows(k)[j],
            ) <= self.index.max_position as int by {
                assert(row_pos(self.block_rows(k)[j]) < self.index.inner@[k + 1].0 as int);
            };
        }
    }

    /// Blocks whose rows all lie outside `[s, e)` contribute nothing.
    proof fn lemma_rows_from_none(&self, k: int, s: int, e: int)
        requires
            self.wf(),
            0 <= k,
            forall|m: int, j: int|
                k <= m < self.n_blocks() && 0 <= j < self.block_rows(m).len() ==> !(s <= row_pos(
                    #[trigger] self.block_rows(m)[j],
                ) < e),
        ensures
            rows_in_range(self.rows_from(k), s, e) == Seq::<Seq<CellModel>>::empty(),
        decreases self.n_blocks() - k,
    {
        if k < self.n_blocks() {
            lemma_rows_in_range_concat(self.block_rows(k), self.rows_from(k + 1), s, e);
            lemma_rows_in_range_none(self.block_rows(k), s, e);
            self.lemma_rows_from_none(k + 1, s, e);
            assert(Seq::<Seq<CellModel>>::empty() + Seq::<Seq<CellModel>>::empty() =~= Seq::<
                Seq<CellModel>,
            >::empty());
        }
    }

    /// Dropping leading blocks whose rows all lie below `s` keeps the
    /// filtered rows unchanged.
    proof fn lemma_skip_prefix(&self, k: int, lo: int, s: int, e: int)
        requires
            self.wf(),
            0 <= k <= lo <= self.n_blocks(),
            forall|m: int, j: int|
                k <= m < lo && 0 <= j < self.block_rows(m).len() ==> row_pos(
                    #[trigger] self.block_rows(m)[j],
                ) < s,
        ensures
            rows_in_range(self.rows_from(k), s, e) == rows_in_range(self.rows_from(lo), s, e),
        decreases lo - k,
    {
        if k < lo {
            lemma_rows_in_range_concat(self.block_rows(k), self.rows_from(k + 1), s, e);
            lemma_rows_in_range_none(self.block_rows(k), s, e);
            self.lemma_skip_prefix(k + 1, lo, s, e);
            assert(Seq::<Seq<CellModel>>::empty() + rows_in_range(self.rows_from(k + 1), s, e)
                =~= rows_in_range(self.rows_from(k + 1), s, e));
        }
    }

    /// Read, decompress and scan one block, appending its rows whose
    /// leading position lies in `[lower, upper)` to `out`.
    #[verifier::rlimit(100)]
    #[verifier::spinoff_prover]
    fn scan_block(
        &self,
        start_off: u64,
        end_off: u64,
        lower: u64,
        upper: u64,
        out: &mut Vec<Row>,
        Ghost(k): Ghost<int>,
    ) -> (r: Result<(), DbError>)
        requires
            self.column_types@.len() >= 1,
            self.column_types@[0] == ColumnType::Integer,
        ensures
            (self.wf() && 0 <= k < self.n_blocks() && start_off as int == self.block_start(k)
                && end_off as int == self.block_end(k)) ==> (r matches Ok(())
                && final(out).deep_view() == old(out).deep_view() + rows_in_range(
                self.block_rows(k),
                lower as int,
                upper as int,
            )),
    {
        let ghost good = self.wf() && 0 <= k < self.n_blocks() && start_off as int
            == self.block_start(k) && end_off as int == self.block_end(k);
        if start_off > end_off || end_off > self.data.len() as u64 {
            proof {
                if good {
                    assert(self.block_wf(k));
                    assert(false);
                }
            }
            return Err(
                DbError::OutOfRange(String::from_str("block offsets exceed the file bounds")),
            );
        }
        let decompressor = RowDecompressor::new(self.compression_algorithm);
        let slice = slice_subrange(self.data.as_slice(), start_off as usize, end_off as usize);
        proof {
            if good {
                assert(self.block_wf(k));
                assert(slice@ == self.compressed_block(k));
            }
        }
        let decompressed = match decompressor.decompress(slice) {
            Ok(d) => d,
            Err(err) => {
                proof {
                    if good {
                        assert(false);
                    }
                }
                return Err(
                    err.with_context(
                        String::from_str("chromosome ").concat(
                            crate::u64_to_string(self.chromosome as u64).as_str(),
                        ),
                    ),
                );
            },
        };
        proof {
            if good {
                assert(decompressed@ == self.block_data(k));
                assert(decompressed@ == block_bytes(self.block_rows(k)));
                assert(decompressed@.subrange(0, decompressed@.len() as int) =~= decompressed@);
                lemma_block_round_trip(
                    self.block_rows(k),
                    self.column_types@,
                    decompressed@,
                    0,
                    lower as int,
                    upper as int,
                );
            }
        }
        let ghost out_before = out.deep_view();
        match deserialize_range(&self.column_types, decompressed.as_slice(), lower, upper, out) {
            Ok(()) => {},
            Err(err) => {
                proof {
                    if good {
                        assert(false);
                    }
                }
                return Err(
                    err.with_context(
                        String::from_str("chromosome ").concat(
                            crate::u64_to_string(self.chromosome as u64).as_str(),
                        ),
                    ),
                );
            },
        }
        Ok(())
    }

    /// Query all rows whose leading position lies in
    /// `[position_value_start, position_value_end)`, in ascending
    /// position order.  On a well-formed table this always succeeds and
    /// returns exactly those rows; a query entirely above the recorded
    /// maximum position returns before touching any block.
    #[verifier::rlimit(100)]
    pub fn query_range(&self, position_value_start: u64, position_value_end: u64) -> (r: Result<
        Vec<Row>,
        DbError,
    >)
        ensures
            self.wf() ==> (r matches Ok(out) && out.deep_view() == rows_in_range(
                self.table_rows(),
                position_value_start as int,
                position_value_end as int,
            )),
    {
        let ghost s = position_value_start as int;
        let ghost e = position_value_end as int;
        if self.column_types.len() == 0 || !matches!(self.column_types[0], ColumnType::Integer) {
            return Err(
                DbError::InvalidFormat(String::from_str("table schema has no leading position")),
            );
        }
        if position_value_start > self.index.max_position {
            proof {
                if self.wf() {
                    assert forall|m: int, j: int|
                        0 <= m < self.n_blocks() && 0 <= j < self.block_rows(m).len() implies !(s
                        <= row_pos(#[trigger] self.block_rows(m)[j]) < e) by {
                        self.lemma_rows_le_max(m);
                    };
                    self.lemma_rows_from_none(0, s, e);
                }
            }
            let out: Vec<Row> = Vec::new();
            proof {
                assert(out.deep_view() =~= Seq::<Seq<CellModel>>::empty());
            }
            return Ok(out);
        }
        if !self.index.check_sorted() {
            return Err(
                DbError::InvalidFormat(String::from_str("table index is not sorted")),
            );
        }
        let range = self.index.get_range(position_value_start, position_value_end);
        let ghost es = self.index.inner@;
        let ghost above = first_above(es, position_value_start);
        let ghost lo: int = if above == 0 { 0 } else { above - 1 };
        let ghost hi = first_at_or_above(es, position_value_end);
        proof {
            lemma_first_above(es, position_value_start);
            lemma_first_at_or_above(es, position_value_end);
        }
        if range.len() == 0 {
            proof {
                if self.wf() {
                    if hi >= lo {
                        // hi == lo: every block lies entirely outside the range
                        assert forall|m: int, j: int|
                            0 <= m < self.n_blocks() && 0 <= j < self.block_rows(m).len() implies !(
                        s <= row_pos(#[trigger] self.block_rows(m)[j]) < e) by {
                            assert(self.block_wf(m));
                            let p = row_pos(self.block_rows(m)[j]);
                            if lo == 0 {
                                // end precedes the first block's first position
                                assert(hi == 0);
                                assert(es[0].0 >= position_value_end);
                                assert(p >= es[m].0 as int);
                                if m > 0 {
                                    assert(es[0].0 < es[m].0);
                                }
                            } else {
                                // the range is empty: end <= start
                                assert(es[lo].0 <= position_value_start);
                                assert(es[lo].0 >= position_value_end);
                            }
                        };
                        self.lemma_rows_from_none(0, s, e);
                    } else {
                        assert forall|m: int, j: int|
                            0 <= m < self.n_blocks() && 0 <= j < self.block_rows(m).len() implies !(
                        s <= row_pos(#[trigger] self.block_rows(m)[j]) < e) by {
                            assert(self.block_wf(m));
                            assert(es[lo].0 <= position_value_start);
                            assert(es[lo].0 >= position_value_end);
                        };
                        self.lemma_rows_from_none(0, s, e);
                    }
                }
            }
            let out: Vec<Row> = Vec::new();
            proof {
                assert(out.deep_view() =~= Seq::<Seq<CellModel>>::empty());
            }
            return Ok(out);
        }
        proof {
            if self.wf() {
                assert(range@.len() >= 1);
                assert(hi > lo);
                assert(range@ == es.subrange(lo, hi));
                assert forall|m: int, j: int|
                    0 <= m < lo && 0 <= j < self.block_rows(m).len() implies row_pos(
                    #[trigger] self.block_rows(m)[j],
                ) < s by {
                    assert(self.block_wf(m));
                    assert(row_pos(self.block_rows(m)[j]) < es[m + 1].0 as int);
                    if m + 1 < lo {
                        assert(es[m + 1].0 < es[lo].0);
                    }
                    assert(es[lo].0 <= position_value_start);
                };
                self.lemma_skip_prefix(0, lo, s, e);
            }
        }
        let mut out: Vec<Row> = Vec::new();
        let mut j: usize = 0;
        proof {
            assert(out.deep_view() =~= Seq::<Seq<CellModel>>::empty());
            if self.wf() {
                assert(Seq::<Seq<CellModel>>::empty() + rows_in_range(self.rows_from(lo), s, e)
                    =~= rows_in_range(self.rows_from(lo), s, e));
            }
        }
        while j < range.len()
            invariant
                j <= range@.len(),
                s == position_value_start as int,
                e == position_value_end as int,
                es == self.index.inner@,
                above == first_above(es, position_value_start),
                lo == if above == 0 { 0int } else { above - 1 },
                hi == first_at_or_above(es, position_value_end),
                self.column_types@.len() >= 1,
                self.column_types@[0] == ColumnType::Integer,
                self.wf() ==> {
                    &&& range@ == es.subrange(lo, hi)
                    &&& hi > lo
                    &&& out.deep_view() + rows_in_range(self.rows_from(lo + j), s, e)
                        == rows_in_range(self.table_rows(), s, e)
                },
            decreases range@.len() - j,
        {
            proof {
                lemma_first_above(es, position_value_start);
                lemma_first_at_or_above(es, position_value_end);
            }
            let ghost k = lo + j;
            let entry = range[j];
            let end_off: u64 = if j + 1 < range.len() {
                range[j + 1].1
            } else {
                self.next_block_offset(position_value_end)
            };
            proof {
                if self.wf() {
                    assert(range@[j as int] == es[k]);
                    assert(self.block_wf(k));
                    if j + 1 < range@.len() {
                        assert(range@[j + 1] == es[k + 1]);
                        assert(end_off as int == self.block_end(k));
                    } else {
                        assert(k == hi - 1);
                        assert(end_off as int == self.block_end(k));
                    }
                }
            }
            let lower: u64 = if entry.0 > position_value_start {
                entry.0
            } else {
                position_value_start
            };
            let upper: u64 = if j + 1 < range.len() {
                range[j + 1].0
            } else {
                position_value_end
            };
            let ghost out_before = out.deep_view();
            match self.scan_block(entry.1, end_off, lower, upper, &mut out, Ghost(k)) {
                Ok(()) => {},
                Err(err) => {
                    proof {
                        if self.wf() {
                            assert(false);
                        }
                    }
                    return Err(err);
                },
            }
            proof {
                if self.wf() {
                    // inside this block the clipped bounds admit the same rows
                    assert forall|i: int| 0 <= i < self.block_rows(k).len() implies ((
                    lower as int <= row_pos(#[trigger] self.block_rows(k)[i]) < upper as int)
                        <==> (s <= row_pos(self.block_rows(k)[i]) < e)) by {
                        assert(self.block_wf(k));
                        let p = row_pos(self.block_rows(k)[i]);
                        assert(p >= es[k].0 as int);
                        if j + 1 < range@.len() {
                            assert(upper == es[k + 1].0);
                            assert(k + 1 < hi);
                            assert(es[k + 1].0 < position_value_end);
                            assert(p < es[k + 1].0 as int);
                        }
                    };
                    lemma_rows_in_range_congruence(
                        self.block_rows(k),
                        lower as int,
                        upper as int,
                        s,
                        e,
                    );
                }
            }
            proof {
                if self.wf() {
                    assert(out.deep_view() == out_before + rows_in_range(
                        self.block_rows(k),
                        s,
                        e,
                    ));
                    lemma_rows_in_range_concat(self.block_rows(k), self.rows_from(k + 1), s, e);
                    assert(self.rows_from(k) == self.block_rows(k) + self.rows_from(k + 1));
                    assert(out_before + (rows_in_range(self.block_rows(k), s, e) + rows_in_range(
                        self.rows_from(k + 1),
                        s,
                        e,
                    )) =~= (out_before + rows_in_range(self.block_rows(k), s, e)) + rows_in_range(
                        self.rows_from(k + 1),
                        s,
                        e,
                    ));
                }
            }
            j = j + 1;
        }
        proof {
            if self.wf() {
                assert(lo + j == hi);
                assert forall|m: int, jj: int|
                    hi <= m < self.n_blocks() && 0 <= jj < self.block_rows(m).len() implies !(s
                    <= row_pos(#[trigger] self.block_rows(m)[jj]) < e) by {
                    assert(self.block_wf(m));
                    assert(es[m].0 >= position_value_end);
                    assert(row_pos(self.block_rows(m)[jj]) >= es[m].0 as int);
                };
                self.lemma_rows_from_none(hi, s, e);
                assert(out.deep_view() + Seq::<Seq<CellModel>>::empty() =~= out.deep_view());
            }
        }
        Ok(out)
    }

    /// The byte offset where the block after the queried range ends: the
    /// offset of the first block whose position is at or past `end`, or
    /// the on-disk index when every block precedes `end`.
    fn next_block_offset(&self, end: u64) -> (r: u64)
        ensures
            entries_sorted(self.index.inner@) ==> r as int == ({
                let hi = first_at_or_above(self.index.inner@, end);
                if hi < self.index.inner@.len() {
                    self.index.inner@[hi].1 as int
                } else {
                    self.index.index_start_offset as int
                }
            }),
    {
        proof {
            lemma_first_at_or_above(self.index.inner@, end);
        }
        let mut t: usize = 0;
        let n = self.index.inner.len();
        while t < n
            invariant
                t <= n == self.index.inner@.len(),
                forall|a: int| 0 <= a < t ==> (#[trigger] self.index.inner@[a]).0 < end,
                t <= first_at_or_above(self.index.inner@, end) || !entries_sorted(
                    self.index.inner@,
                ),
            decreases n - t,
        {
            proof {
                lemma_first_at_or_above(self.index.inner@, end);
            }
            if self.index.inner[t].0 >= end {
                proof {
                    if entries_sorted(self.index.inner@) {
                        lemma_first_at_or_above(self.index.inner@, end);
                        assert(t as int == first_at_or_above(self.index.inner@, end));
                    }
                }
                return self.index.inner[t].1;
            }
            t = t + 1;
        }
        proof {
            if entries_sorted(self.index.inner@) {
                lemma_first_at_or_above(self.index.inner@, end);
                assert(first_at_or_above(self.index.inner@, end) == n as int);
            }
        }
        self.index.index_start_offset
    }
}

/// Blocks with equal rows block by block carry the same table rows.
proof fn lemma_rows_from_congr(
    f1: Seq<u8>,
    f2: Seq<u8>,
    entries: Seq<(u64, u64)>,
    iso: int,
    types: Seq<ColumnType>,
    algo: CompressionAlgorithm,
    k: int,
)
    requires
        forall|m: int|
            0 <= m < entries.len() ==> #[trigger] tbl_block_rows(f1, entries, iso, types, algo, m)
                == tbl_block_rows(f2, entries, iso, types, algo, m),
    ensures
        tbl_rows_from(f1, entries, iso, types, algo, k) == tbl_rows_from(
            f2,
            entries,
            iso,
            types,
            algo,
            k,
        ),
    decreases entries.len() - k,
{
    if 0 <= k < entries.len() {
        lemma_rows_from_congr(f1, f2, entries, iso, types, algo, k + 1);
    }
}

/// Two files that agree from `a` on (below the first file's end) give a
/// varint read at or past `a` the same result.
proof fn lemma_vint_at_agree(f1: Seq<u8>, f2: Seq<u8>, a: int, pos: int)
    requires
        0 <= a <= pos,
        a <= f1.len(),
        f1.len() <= f2.len(),
        f2.subrange(a, f1.len() as int) == f1.subrange(a, f1.len() as int),
        vint_at(f1, pos) is Some,
    ensures
        vint_at(f2, pos) == vint_at(f1, pos),
{
    assert(pos < f1.len());
    assert forall|i: int| a <= i < f1.len() implies f2[i] == f1[i] by {
        assert(f2.subrange(a, f1.len() as int)[i - a] == f2[i]);
        assert(f1.subrange(a, f1.len() as int)[i - a] == f1[i]);
    };
    let l = crate::varint::vint_decoded_len(f1[pos]);
    assert(f2[pos] == f1[pos]);
    assert(pos + l <= f1.len());
    assert(f2.subrange(pos, pos + l) =~= f1.subrange(pos, pos + l));
    if l == 9 {
        assert(f2.subrange(pos + 1, pos + 9) =~= f1.subrange(pos + 1, pos + 9));
    }
}

/// The same, for a run of index entries.
proof fn lemma_parse_index_entries_agree(f1: Seq<u8>, f2: Seq<u8>, a: int, pos: int, n: nat)
    requires
        0 <= a <= pos,
        a <= f1.len(),
        f1.len() <= f2.len(),
        f2.subrange(a, f1.len() as int) == f1.subrange(a, f1.len() as int),
        parse_index_entries(f1, pos, n) is Some,
    ensures
        parse_index_entries(f2, pos, n) == parse_index_entries(f1, pos, n),
    decreases n,
{
    if n > 0 {
        let (p, l1) = vint_at(f1, pos)->Some_0;
        lemma_vint_at_agree(f1, f2, a, pos);
        assert(pos + l1 <= f1.len());
        let (o, l2) = vint_at(f1, pos + l1)->Some_0;
        lemma_vint_at_agree(f1, f2, a, pos + l1);
        lemma_parse_index_entries_agree(f1, f2, a, pos + l1 + l2, (n - 1) as nat);
    }
}

/// The same, for a whole table index at `off`.
pub proof fn lemma_parse_table_index_agree(f1: Seq<u8>, f2: Seq<u8>, a: int, off: int)
    requires
        0 <= a <= off,
        a <= f1.len(),
        f1.len() <= f2.len(),
        f2.subrange(a, f1.len() as int) == f1.subrange(a, f1.len() as int),
        parse_table_index(f1, off) is Some,
    ensures
        parse_table_index(f2, off) == parse_table_index(f1, off),
{
    assert forall|i: int| a <= i < f1.len() implies f2[i] == f1[i] by {
        assert(f2.subrange(a, f1.len() as int)[i - a] == f2[i]);
        assert(f1.subrange(a, f1.len() as int)[i - a] == f1[i]);
    };
    assert(off + 29 <= f1.len());
    assert(f2.subrange(off, off + 5) =~= f1.subrange(off, off + 5));
    assert(f2.subrange(off + 5, off + 13) =~= f1.subrange(off + 5, off + 13));
    assert(f2.subrange(off + 13, off + 21) =~= f1.subrange(off + 13, off + 21));
    assert(f2.subrange(off + 21, off + 29) =~= f1.subrange(off + 21, off + 29));
    let n = be_load(f1.subrange(off + 21, off + 29));
    lemma_parse_index_entries_agree(f1, f2, a, off + 29, n as nat);
}

/// Two files that agree from `a` on hold the same table when its blocks
/// and index all stand at or past `a`.
pub proof fn lemma_table_wf_agree(
    f1: Seq<u8>,
    f2: Seq<u8>,
    a: int,
    entries: Seq<(u64, u64)>,
    iso: int,
    maxpos: u64,
    types: Seq<ColumnType>,
    algo: CompressionAlgorithm,
)
    requires
        table_wf(f1, entries, iso, maxpos, types, algo),
        0 <= a,
        a <= f1.len(),
        forall|k: int| 0 <= k < entries.len() ==> a <= (#[trigger] entries[k]).1 as int,
        f1.len() <= f2.len(),
        f2.subrange(a, f1.len() as int) == f1.subrange(a, f1.len() as int),
    ensures
        table_wf(f2, entries, iso, maxpos, types, algo),
        table_rows_of(f2, entries, iso, types, algo) == table_rows_of(f1, entries, iso, types, algo),
{
    assert forall|i: int| a <= i < f1.len() implies f2[i] == f1[i] by {
        assert(f2.subrange(a, f1.len() as int)[i - a] == f2[i]);
        assert(f1.subrange(a, f1.len() as int)[i - a] == f1[i]);
    };
    assert forall|k: int| 0 <= k < entries.len() implies #[trigger] tbl_compressed_block(
        f2,
        entries,
        iso,
        k,
    ) == tbl_compressed_block(f1, entries, iso, k) by {
        assert(tbl_block_wf(f1, entries, iso, types, algo, k));
        let lo = tbl_block_start(entries, k);
        let hi = tbl_block_end(entries, iso, k);
        assert(a <= lo);
        assert(hi <= iso <= f1.len());
        assert(f2.subrange(lo, hi) =~= f1.subrange(lo, hi));
    };
    assert forall|k: int| 0 <= k < entries.len() implies #[trigger] tbl_block_rows(
        f1,
        entries,
        iso,
        types,
        algo,
        k,
    ) == tbl_block_rows(f2, entries, iso, types, algo, k) by {};
    assert forall|k: int| 0 <= k < entries.len() implies tbl_block_wf(
        f2,
        entries,
        iso,
        types,
        algo,
        k,
    ) by {
        assert(tbl_block_wf(f1, entries, iso, types, algo, k));
    };
    lemma_rows_from_congr(f1, f2, entries, iso, types, algo, 0);
}

/// Opening one file image any number of times yields the same table:/// Opening one file image any number of times yields the same table:
/// what a query returns is a function of the bytes, the index, the
/// schema and the algorithm alone.
pub proof fn lemma_open_deterministic(r1: &RowReader, r2: &RowReader)
    requires
        r1.data@ == r2.data@,
        r1.index@ == r2.index@,
        r1.column_types@ == r2.column_types@,
        r1.compression_algorithm == r2.compression_algorithm,
    ensures
        r1.wf() == r2.wf(),
        r1.table_rows() == r2.table_rows(),
{
    assert(r1.index.inner@ == r2.index.inner@);
    assert(r1.index.index_start_offset == r2.index.index_start_offset);
    assert(r1.index.max_position == r2.index.max_position);
}

/// Round trip: querying a well-formed table over the whole position
/// space yields every row, in ascending position order.
pub proof fn lemma_full_scan_returns_all(r: &RowReader)
    requires
        r.wf(),
    ensures
        rows_in_range(r.table_rows(), 0, u64::MAX as int) == r.table_rows(),
{
    lemma_rows_from_all_in(r, 0);
}

/// Every row of blocks `k` onward survives the full-range filter: its
/// position is a signed 64-bit value at or past its block's key, which
/// is non-negative.
proof fn lemma_rows_from_all_in(r: &RowReader, k: int)
    requires
        r.wf(),
        0 <= k <= r.n_blocks(),
    ensures
        rows_in_range(r.rows_from(k), 0, u64::MAX as int) == r.rows_from(k),
        k < r.n_blocks() ==> forall|j: int|
            0 <= j < r.rows_from(k).len() ==> 0 <= row_pos(#[trigger] r.rows_from(k)[j])
                < u64::MAX as int,
    decreases r.n_blocks() - k,
{
    if k == r.n_blocks() {
    } else {
        assert(r.block_wf(k));
        lemma_rows_from_all_in(r, k + 1);
        let b = r.block_rows(k);
        let rest = r.rows_from(k + 1);
        assert forall|j: int| 0 <= j < r.rows_from(k).len() implies 0 <= row_pos(
            #[trigger] r.rows_from(k)[j],
        ) < u64::MAX as int by {
            if j < b.len() {
                assert(r.rows_from(k)[j] == b[j]);
                assert(row_pos(b[j]) >= r.index.inner@[k].0 as int);
            } else {
                assert(r.rows_from(k)[j] == rest[j - b.len()]);
            }
        };
        lemma_rows_in_range_all(r.rows_from(k), 0, u64::MAX as int);
    }
}

/// Every row whose position lies inside the interval survives filtering.
proof fn lemma_rows_in_range_all(rows: Seq<Seq<CellModel>>, start: int, end: int)
    requires
        forall|i: int| 0 <= i < rows.len() ==> start <= row_pos(#[trigger] rows[i]) < end,
    ensures
        rows_in_range(rows, start, end) == rows,
    decreases rows.len(),
{
    if rows.len() > 0 {
        assert(forall|i: int|
            0 <= i < rows.drop_first().len() ==> start <= row_pos(
                #[trigger] rows.drop_first()[i],
            ) < end);
        lemma_rows_in_range_all(rows.drop_first(), start, end);
        assert(seq![rows.first()] + rows.drop_first() =~= rows);
    }
}

/// Block selection boundaries: a block whose first position equals the
/// query start is selected; a block whose first position equals the
/// query end is not.
pub proof fn lemma_get_range_boundaries(es: Seq<(u64, u64)>, start: u64, end: u64, k: int)
    requires
        entries_sorted(es),
        0 <= k < es.len(),
        start < end,
    ensures
        es[k].0 == start ==> exists|j: int|
            0 <= j < spec_get_range(es, start, end).len() && #[trigger] spec_get_range(
                es,
                start,
                end,
            )[j] == es[k],
        es[k].0 == end ==> forall|j: int|
            0 <= j < spec_get_range(es, start, end).len() ==> #[trigger] spec_get_range(
                es,
                start,
                end,
            )[j] != es[k],
{
    lemma_first_above(es, start);
    lemma_first_at_or_above(es, end);
    let above = first_above(es, start);
    let lo = if above == 0 {
        0int
    } else {
        above - 1
    };
    let hi = first_at_or_above(es, end);
    if es[k].0 == start {
        // the predecessor scan starts exactly at this block
        assert(k < above);
        assert(k >= above - 1) by {
            if k < above - 1 {
                assert(es[k].0 < es[above - 1].0);
                assert(es[above - 1].0 <= start);
            }
        };
        assert(k == lo);
        assert(k < hi);
        assert(hi >= lo);
        assert(spec_get_range(es, start, end)[0] == es[k]);
    }
    if es[k].0 == end {
        assert(k >= hi);
        assert forall|j: int| 0 <= j < spec_get_range(es, start, end).len() implies (
        #[trigger] spec_get_range(es, start, end)[j]) != es[k] by {
            if hi >= lo {
                assert(spec_get_range(es, start, end)[j] == es[lo + j]);
                assert(lo + j < hi);
                assert(es[lo + j].0 < es[k].0);
            }
        };
    }
}

} // verus!



