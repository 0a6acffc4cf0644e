//! The build configuration: datasets, their columns, and the rules they
//! must satisfy before a build may start.
use vstd::prelude::*;
use vstd::string::StrSliceExecFns;
use vstd::string::StringExecFns;
use vstd::utf8::encode_utf8;
use crate::DbError;
use crate::compression::CompressionAlgorithm;

verus! {

/// The declared type of a column's cells.
#[derive(Debug, Clone, Copy, PartialEq, Eq, Hash, Structural)]
pub enum ColumnType {
    /// Cells are signed 64-bit integers.
    Integer,
    /// Cells are 64-bit IEEE-754 values.
    Float,
    /// Cells are strings with many distinct values.
    VolatileString,
    /// Cells are strings repeated many times (reserved; not implemented).
    HashtableString,
}

impl ColumnType {
    /// The numeric tag stored in column headers.
    pub fn to_u8(self) -> (r: u8)
        ensures
            r == type_tag(self),
    {
        match self {
            ColumnType::Integer => 0,
            ColumnType::Float => 1,
            ColumnType::VolatileString => 2,
            ColumnType::HashtableString => 3,
        }
    }

    /// The inverse of the numeric tag; fails on an unknown tag.
    pub fn try_from(v: u8) -> (r: Result<ColumnType, ()>)
        ensures
            match r {
                Ok(t) => v == type_tag(t) && v <= 3,
                Err(()) => v >= 4,
            },
    {
        match v {
            0 => Ok(ColumnType::Integer),
            1 => Ok(ColumnType::Float),
            2 => Ok(ColumnType::VolatileString),
            3 => Ok(ColumnType::HashtableString),
            _ => Err(()),
        }
    }
}

/// The numeric tag of a column type.
pub open spec fn type_tag(t: ColumnType) -> u8 {
    match t {
        ColumnType::Integer => 0,
        ColumnType::Float => 1,
        ColumnType::VolatileString => 2,
        ColumnType::HashtableString => 3,
    }
}

/// What to do when a source field is absent or empty.
#[derive(Debug, Clone, Copy, PartialEq, Eq, Hash, Structural)]
pub enum MissingValuePolicy {
    /// Drop the whole row.
    OmitRow,
    /// Fail the build.
    Throw,
    /// Substitute the empty string.
    ReplaceWithEmptyString,
}

impl Default for MissingValuePolicy {
    fn default() -> (r: Self)
        ensures
            r == MissingValuePolicy::Throw,
    {
        MissingValuePolicy::Throw
    }
}

/// The role a column plays in its table.
#[derive(Debug, Clone, Copy, PartialEq, Eq, Hash, Structural)]
pub enum ColumnRole {
    Position,
    PositionStart,
    PositionEnd,
    Data,
}

impl Default for ColumnRole {
    fn default() -> (r: Self)
        ensures
            r == ColumnRole::Data,
    {
        ColumnRole::Data
    }
}

/// One column of a dataset's schema.
#[derive(Debug, Clone)]
pub struct Column {
    pub name: String,
    pub type_: ColumnType,
    pub role: ColumnRole,
    pub missing_value_policy: MissingValuePolicy,
}

/// The name a dataset is registered under.
#[derive(Debug, Clone)]
pub struct DatasetMetadata {
    pub name: String,
}

/// Where the configuration document itself lives.
#[derive(Debug, Clone)]
pub struct ConfigMetadata {
    pub config_path: String,
}

/// One dataset: a schema plus the chromosomes it is built from.
#[derive(Debug, Clone)]
pub struct Dataset {
    pub metadata: Option<DatasetMetadata>,
    pub file_per_chromosome: bool,
    pub chromosomes: Option<Vec<u8>>,
    pub path: String,
    pub columns: Vec<Column>,
    pub rows_per_index: usize,
    pub compression_algorithm: CompressionAlgorithm,
}

/// The whole build configuration, datasets in declared order.
#[derive(Debug, Clone)]
pub struct Config {
    pub metadata: Option<ConfigMetadata>,
    pub datasets: Vec<Dataset>,
}

/// Byte length of a string (its UTF-8 encoding).
pub open spec fn byte_len(s: Seq<char>) -> nat {
    encode_utf8(s).len()
}

/// How many columns of `cs` carry `role`.
pub open spec fn count_role(cs: Seq<Column>, role: ColumnRole) -> int
    decreases cs.len(),
{
    if cs.len() == 0 {
        0
    } else {
        count_role(cs.drop_last(), role) + if cs.last().role == role {
            1int
        } else {
            0int
        }
    }
}

/// The legal role layouts: one `Position` column standing first, or a
/// `PositionStart` first and a `PositionEnd` second and none other.
pub open spec fn roles_ok(cs: Seq<Column>) -> bool {
    ||| (count_role(cs, ColumnRole::Position) == 1 && count_role(cs, ColumnRole::PositionStart)
        == 0 && count_role(cs, ColumnRole::PositionEnd) == 0 && cs.len() >= 1 && cs[0].role
        == ColumnRole::Position)
    ||| (count_role(cs, ColumnRole::Position) == 0 && count_role(cs, ColumnRole::PositionStart)
        == 1 && count_role(cs, ColumnRole::PositionEnd) == 1 && cs.len() >= 2 && cs[0].role
        == ColumnRole::PositionStart && cs[1].role == ColumnRole::PositionEnd)
}

/// Every position-carrying column declares the integer type.
pub open spec fn position_types_ok(cs: Seq<Column>) -> bool {
    forall|i: int|
        0 <= i < cs.len() && cs[i].role != ColumnRole::Data ==> cs[i].type_ == ColumnType::Integer
}

/// Column names stay within one length byte, and the reserved
/// hashtable-string type is refused.
pub open spec fn column_names_ok(cs: Seq<Column>) -> bool {
    forall|i: int|
        0 <= i < cs.len() ==> byte_len(#[trigger] cs[i].name@) <= 255 && cs[i].type_
            != ColumnType::HashtableString
}

/// All rules one dataset must satisfy.
pub open spec fn dataset_valid(d: Dataset) -> bool {
    &&& d.metadata is Some
    &&& byte_len(d.metadata->Some_0.name@) <= 255
    &&& roles_ok(d.columns@)
    &&& position_types_ok(d.columns@)
    &&& column_names_ok(d.columns@)
    &&& d.rows_per_index >= 1
    &&& d.file_per_chromosome
    &&& d.chromosomes is Some
    &&& d.chromosomes->Some_0@.len() >= 1
    &&& contains_seq(encode_utf8(d.path@), chromosome_pattern())
}

/// All rules the whole configuration must satisfy.
pub open spec fn config_valid(c: Config) -> bool {
    forall|i: int| 0 <= i < c.datasets@.len() ==> dataset_valid(#[trigger] c.datasets@[i])
}

/// `n` occurs as a contiguous run inside `h`.
pub open spec fn contains_seq(h: Seq<u8>, n: Seq<u8>) -> bool {
    exists|i: int| 0 <= i && i + n.len() <= h.len() && #[trigger] h.subrange(i, i + n.len()) == n
}

/// The bytes of the placeholder `{chromosome}` that a per-chromosome path
/// must contain.
pub open spec fn chromosome_pattern() -> Seq<u8> {
    seq![
        0x7bu8, 0x63u8, 0x68u8, 0x72u8, 0x6fu8, 0x6du8, 0x6fu8, 0x73u8, 0x6fu8, 0x6du8, 0x65u8,
        0x7du8,
    ]
}

/// Executable copy of [`chromosome_pattern`].
pub fn chromosome_pattern_vec() -> (r: Vec<u8>)
    ensures
        r@ == chromosome_pattern(),
{
    let mut v: Vec<u8> = Vec::new();
    v.push(0x7b);
    v.push(0x63);
    v.push(0x68);
    v.push(0x72);
    v.push(0x6f);
    v.push(0x6d);
    v.push(0x6f);
    v.push(0x73);
    v.push(0x6f);
    v.push(0x6d);
    v.push(0x65);
    v.push(0x7d);
    proof {
        assert(v@ =~= chromosome_pattern());
    }
    v
}

/// Does `n` match `h` at offset `at`?
pub fn bytes_match_at(h: &[u8], n: &[u8], at: usize) -> (r: bool)
    requires
        at + n@.len() <= h@.len(),
    ensures
        r == (h@.subrange(at as int, at + n@.len()) == n@),
{
    let hl = h.len();
    let mut j: usize = 0;
    while j < n.len()
        invariant
            j <= n@.len(),
            at + n@.len() <= h@.len(),
            h@.len() <= usize::MAX,
            forall|k: int| 0 <= k < j ==> h@[at + k] == n@[k],
        decreases n@.len() - j,
    {
        if h[at + j] != n[j] {
            proof {
                assert(h@.subrange(at as int, at + n@.len())[j as int] != n@[j as int]);
            }
            return false;
        }
        j = j + 1;
    }
    proof {
        assert(h@.subrange(at as int, at + n@.len()) =~= n@);
    }
    true
}

/// Substring search over bytes; reports exactly [`contains_seq`].
pub fn bytes_contains(h: &[u8], n: &[u8]) -> (r: bool)
    requires
        n@.len() >= 1,
    ensures
        r == contains_seq(h@, n@),
{
    if n.len() > h.len() {
        return false;
    }
    let mut i: usize = 0;
    let last = h.len() - n.len();
    while i <= last
        invariant
            n@.len() >= 1,
            last == h@.len() - n@.len(),
            h@.len() <= usize::MAX,
            i <= last + 1,
            forall|k: int| 0 <= k < i ==> #[trigger] h@.subrange(k, k + n@.len()) != n@,
        decreases last - i + 1,
    {
        if bytes_match_at(h, n, i) {
            return true;
        }
        i = i + 1;
    }
    false
}

impl Config {
    /// Check every dataset against the configuration rules; succeeds
    /// exactly when the whole configuration is valid.
    pub fn validate(&self) -> (r: Result<(), DbError>)
        requires
            forall|i: int|
                0 <= i < self.datasets@.len() ==> (#[trigger] self.datasets@[i]).metadata is Some,
        ensures
            match r {
                Ok(()) => config_valid(*self),
                Err(e) => !config_valid(*self) && e is ValidationError,
            },
    {
        let mut i: usize = 0;
        while i < self.datasets.len()
            invariant
                i <= self.datasets@.len(),
                forall|k: int|
                    0 <= k < self.datasets@.len() ==> (#[trigger] self.datasets@[k]).metadata
                        is Some,
                forall|k: int| 0 <= k < i ==> dataset_valid(#[trigger] self.datasets@[k]),
            decreases self.datasets@.len() - i,
        {
            match self.validate_dataset(&self.datasets[i]) {
                Ok(()) => {},
                Err(e) => {
                    return Err(e);
                },
            }
            i = i + 1;
        }
        Ok(())
    }

    /// Check one dataset; succeeds exactly when it is valid.
    pub fn validate_dataset(&self, dataset: &Dataset) -> (r: Result<(), DbError>)
        requires
            dataset.metadata is Some,
        ensures
            match r {
                Ok(()) => dataset_valid(*dataset),
                Err(e) => !dataset_valid(*dataset) && e is ValidationError,
            },
    {
        match self.validate_path(dataset) {
            Ok(()) => {},
            Err(e) => {
                return Err(e);
            },
        }
        match self.validate_columns(dataset) {
            Ok(()) => {},
            Err(e) => {
                return Err(e);
            },
        }
        match &dataset.metadata {
            Some(metadata) => {
                if metadata.name.as_str().as_bytes().len() > 255 {
                    return Err(
                        DbError::ValidationError(
                            String::from_str("dataset name is too long (max 255 bytes)"),
                        ),
                    );
                }
            },
            None => {
                return Err(DbError::ValidationError(String::from_str("dataset has no name")));
            },
        }
        if dataset.rows_per_index == 0 {
            return Err(
                DbError::ValidationError(
                    String::from_str("'rows_per_index' must be greater than 0"),
                ),
            );
        }
        Ok(())
    }

    /// Check the path rules: one file per chromosome, a non-empty
    /// chromosome list, and the `{chromosome}` placeholder in the path.
    fn validate_path(&self, dataset: &Dataset) -> (r: Result<(), DbError>)
        ensures
            match r {
                Ok(()) => {
                    &&& dataset.file_per_chromosome
                    &&& dataset.chromosomes is Some
                    &&& dataset.chromosomes->Some_0@.len() >= 1
                    &&& contains_seq(encode_utf8(dataset.path@), chromosome_pattern())
                },
                Err(e) => {
                    &&& !(dataset.file_per_chromosome && dataset.chromosomes is Some
                        && dataset.chromosomes->Some_0@.len() >= 1 && contains_seq(
                        encode_utf8(dataset.path@),
                        chromosome_pattern(),
                    ))
                    &&& e is ValidationError
                },
            },
    {
        if !dataset.file_per_chromosome {
            return Err(
                DbError::ValidationError(
                    String::from_str(
                        "datasets with 'file_per_chromosome' set to false are currently not supported",
                    ),
                ),
            );
        }
        match &dataset.chromosomes {
            Some(chromosomes) => {
                if chromosomes.len() == 0 {
                    return Err(
                        DbError::ValidationError(
                            String::from_str(
                                "'chromosomes' cannot be empty when 'file_per_chromosome' is true",
                            ),
                        ),
                    );
                }
            },
            None => {
                return Err(
                    DbError::ValidationError(
                        String::from_str(
                            "'chromosomes' must be specified when 'file_per_chromosome' is true",
                        ),
                    ),
                );
            },
        }
        let pattern = chromosome_pattern_vec();
        if !bytes_contains(dataset.path.as_str().as_bytes(), pattern.as_slice()) {
            return Err(
                DbError::ValidationError(
                    String::from_str(
                        "'path' must contain '{chromosome}' when 'file_per_chromosome' is true",
                    ),
                ),
            );
        }
        Ok(())
    }

    /// Check the column rules: role layout, integer position columns,
    /// name lengths, and no reserved types.
    fn validate_columns(&self, dataset: &Dataset) -> (r: Result<(), DbError>)
        ensures
            match r {
                Ok(()) => roles_ok(dataset.columns@) && position_types_ok(dataset.columns@)
                    && column_names_ok(dataset.columns@),
                Err(e) => {
                    &&& !(roles_ok(dataset.columns@) && position_types_ok(dataset.columns@)
                        && column_names_ok(dataset.columns@))
                    &&& e is ValidationError
                },
            },
    {
        let n_position = Self::count_role_exec(&dataset.columns, ColumnRole::Position);
        let n_start = Self::count_role_exec(&dataset.columns, ColumnRole::PositionStart);
        let n_end = Self::count_role_exec(&dataset.columns, ColumnRole::PositionEnd);

        let layout_single = n_position == 1 && n_start == 0 && n_end == 0;
        let layout_pair = n_position == 0 && n_start == 1 && n_end == 1;
        if !layout_single && !layout_pair {
            return Err(
                DbError::ValidationError(
                    String::from_str(
                        "columns must carry exactly one 'position' role, or exactly one 'position-start' with exactly one 'position-end'",
                    ),
                ),
            );
        }
        if layout_single {
            // count 1 forces at least one column
            proof {
                lemma_count_role_len(dataset.columns@, ColumnRole::Position);
            }
            if !matches!(dataset.columns[0].role, ColumnRole::Position) {
                return Err(
                    DbError::ValidationError(
                        String::from_str("the column with role 'position' must be the first column"),
                    ),
                );
            }
        } else {
            proof {
                lemma_count_role_len(dataset.columns@, ColumnRole::PositionStart);
                lemma_count_role_len(dataset.columns@, ColumnRole::PositionEnd);
                if dataset.columns@.len() == 1 {
                    lemma_count_role_single(dataset.columns@);
                }
            }
            if !matches!(dataset.columns[0].role, ColumnRole::PositionStart) {
                return Err(
                    DbError::ValidationError(
                        String::from_str(
                            "the column with role 'position-start' must be the first column",
                        ),
                    ),
                );
            }
            if dataset.columns.len() < 2 || !matches!(
                dataset.columns[1].role,
                ColumnRole::PositionEnd,
            ) {
                return Err(
                    DbError::ValidationError(
                        String::from_str(
                            "the column with role 'position-end' must be the second column",
                        ),
                    ),
                );
            }
        }

        let mut i: usize = 0;
        while i < dataset.columns.len()
            invariant
                i <= dataset.columns@.len(),
                forall|k: int|
                    0 <= k < i ==> ((#[trigger] dataset.columns@[k]).role != ColumnRole::Data
                        ==> dataset.columns@[k].type_ == ColumnType::Integer) && byte_len(
                        dataset.columns@[k].name@,
                    ) <= 255 && dataset.columns@[k].type_ != ColumnType::HashtableString,
            decreases dataset.columns@.len() - i,
        {
            let column = &dataset.columns[i];
            let is_positional = !matches!(column.role, ColumnRole::Data);
            if is_positional && !matches!(column.type_, ColumnType::Integer) {
                return Err(
                    DbError::ValidationError(
                        String::from_str("position-carrying columns must have the type 'integer'"),
                    ),
                );
            }
            if matches!(column.type_, ColumnType::HashtableString) {
                return Err(
                    DbError::ValidationError(
                        String::from_str("the 'hashtable-string' type is reserved and unsupported"),
                    ),
                );
            }
            if column.name.as_str().as_bytes().len() > 255 {
                return Err(
                    DbError::ValidationError(
                        String::from_str("column name is too long (max 255 bytes)"),
                    ),
                );
            }
            i = i + 1;
        }
        Ok(())
    }

    /// Count the columns carrying `role`.
    fn count_role_exec(columns: &Vec<Column>, role: ColumnRole) -> (n: usize)
        ensures
            n as int == count_role(columns@, role),
    {
        let mut n: usize = 0;
        let mut i: usize = 0;
        proof {
            lemma_count_role_len(columns@, role);
        }
        while i < columns.len()
            invariant
                i <= columns@.len(),
                n as int == count_role(columns@.take(i as int), role),
                n <= i,
            decreases columns@.len() - i,
        {
            proof {
                assert(columns@.take(i + 1).drop_last() =~= columns@.take(i as int));
                assert(columns@.take(i + 1).last() == columns@[i as int]);
                lemma_count_role_len(columns@.take(i as int), role);
            }
            if columns[i].role == role {
                n = n + 1;
            }
            i = i + 1;
        }
        proof {
            assert(columns@.take(columns@.len() as int) =~= columns@);
        }
        n
    }
}

/// A role count never exceeds the column count, and a positive count
/// means some column carries the role.
proof fn lemma_count_role_len(cs: Seq<Column>, role: ColumnRole)
    ensures
        0 <= count_role(cs, role) <= cs.len(),
        count_role(cs, role) >= 1 ==> exists|i: int| 0 <= i < cs.len() && cs[i].role == role,
    decreases cs.len(),
{
    if cs.len() > 0 {
        lemma_count_role_len(cs.drop_last(), role);
        if count_role(cs, role) >= 1 {
            if cs.last().role == role {
                assert(cs[cs.len() - 1].role == role);
            } else {
                let i = choose|i: int|
                    0 <= i < cs.drop_last().len() && cs.drop_last()[i].role == role;
                assert(cs[i].role == role);
            }
        }
    }
}

/// A single column cannot carry both start and end roles.
proof fn lemma_count_role_single(cs: Seq<Column>)
    requires
        cs.len() == 1,
    ensures
        !(count_role(cs, ColumnRole::PositionStart) == 1 && count_role(cs, ColumnRole::PositionEnd)
            == 1),
{
    assert(cs.drop_last().len() == 0);
    assert(count_role(cs.drop_last(), ColumnRole::PositionStart) == 0);
    assert(count_role(cs.drop_last(), ColumnRole::PositionEnd) == 0);
}

/// `s` with every occurrence of `pat` replaced by `rep`, scanning left
/// to right and resuming after each replacement.
pub open spec fn spec_replace(s: Seq<u8>, pat: Seq<u8>, rep: Seq<u8>) -> Seq<u8>
    decreases s.len(),
{
    if pat.len() == 0 || s.len() < pat.len() {
        s
    } else if s.subrange(0, pat.len() as int) == pat {
        rep + spec_replace(s.skip(pat.len() as int), pat, rep)
    } else {
        seq![s.first()] + spec_replace(s.drop_first(), pat, rep)
    }
}

/// Replace every occurrence of `pat` in `s` by `rep`.
pub fn bytes_replace(s: &[u8], pat: &[u8], rep: &[u8]) -> (r: Vec<u8>)
    requires
        pat@.len() >= 1,
    ensures
        r@ == spec_replace(s@, pat@, rep@),
{
    let mut out: Vec<u8> = Vec::new();
    let mut i: usize = 0;
    let n = s.len();
    let plen = pat.len();
    proof {
        assert(s@.skip(0) =~= s@);
        assert(out@ + spec_replace(s@, pat@, rep@) =~= spec_replace(s@, pat@, rep@));
    }
    while plen <= n && i <= n - plen
        invariant
            plen == pat@.len() >= 1,
            n == s@.len(),
            i <= n,
            out@ + spec_replace(s@.skip(i as int), pat@, rep@) == spec_replace(s@, pat@, rep@),
        decreases n - i,
    {
        let ghost rest = s@.skip(i as int);
        let ghost out_old = out@;
        if bytes_match_at(s, pat, i) {
            proof {
                assert forall|k: int| 0 <= k < plen implies rest.subrange(0, plen as int)[k]
                    == pat@[k] by {
                    assert(s@.subrange(i as int, i + plen)[k] == s@[i + k]);
                };
                assert(rest.subrange(0, plen as int) =~= pat@);
            }
            let mut rep_copy = vstd::slice::slice_to_vec(rep);
            out.append(&mut rep_copy);
            i = i + plen;
            proof {
                assert(rest.skip(plen as int) =~= s@.skip(i as int));
                assert(spec_replace(rest, pat@, rep@) == rep@ + spec_replace(
                    s@.skip(i as int),
                    pat@,
                    rep@,
                ));
                assert((out_old + rep@) + spec_replace(s@.skip(i as int), pat@, rep@)
                    =~= out_old + (rep@ + spec_replace(s@.skip(i as int), pat@, rep@)));
            }
        } else {
            proof {
                assert(s@.subrange(i as int, i + plen) =~= rest.subrange(0, plen as int));
            }
            out.push(s[i]);
            i = i + 1;
            proof {
                assert(rest.first() == s@[i - 1]);
                assert(rest.drop_first() =~= s@.skip(i as int));
                assert(spec_replace(rest, pat@, rep@) == seq![s@[i - 1]] + spec_replace(
                    s@.skip(i as int),
                    pat@,
                    rep@,
                ));
                assert((out_old.push(s@[i - 1])) + spec_replace(s@.skip(i as int), pat@, rep@)
                    =~= out_old + (seq![s@[i - 1]] + spec_replace(s@.skip(i as int), pat@, rep@)));
            }
        }
    }
    let mut tail_copy = vstd::slice::slice_to_vec(vstd::slice::slice_subrange(s, i, n));
    proof {
        assert(spec_replace(s@.skip(i as int), pat@, rep@) == s@.skip(i as int));
        assert(s@.subrange(i as int, n as int) =~= s@.skip(i as int));
    }
    out.append(&mut tail_copy);
    out
}

/// The ASCII decimal digits of `n`, most significant first.
pub open spec fn dec_bytes(n: int) -> Seq<u8>
    decreases n,
{
    if n < 10 {
        seq![(0x30 + if n >= 0 { n } else { 0 }) as u8]
    } else {
        dec_bytes(n / 10) + seq![(0x30 + n % 10) as u8]
    }
}

/// The decimal digits of a chromosome number.
pub fn u8_to_decimal(n: u8) -> (r: Vec<u8>)
    ensures
        r@ == dec_bytes(n as int),
{
    proof {
        reveal_with_fuel(dec_bytes, 4);
    }
    let mut v: Vec<u8> = Vec::new();
    if n >= 100 {
        v.push(0x30 + n / 100);
        v.push(0x30 + (n / 10) % 10);
        v.push(0x30 + n % 10);
        proof {
            assert(n as int / 10 / 10 == n as int / 100) by {
                vstd::arithmetic::div_mod::lemma_div_denominator(n as int, 10, 10);
            };
            assert(v@ =~= dec_bytes(n as int));
        }
    } else if n >= 10 {
        v.push(0x30 + n / 10);
        v.push(0x30 + n % 10);
        proof {
            assert(v@ =~= dec_bytes(n as int));
        }
    } else {
        v.push(0x30 + n);
        proof {
            assert(v@ =~= dec_bytes(n as int));
        }
    }
    v
}

/// `b` is sorted ascending.
pub open spec fn u8s_sorted(b: Seq<u8>) -> bool {
    forall|i: int, j: int| 0 <= i <= j < b.len() ==> b[i] <= b[j]
}

/// Sort a chromosome list ascending; the result is a permutation.
pub fn sort_u8s(v: &Vec<u8>) -> (r: Vec<u8>)
    ensures
        u8s_sorted(r@),
        r@.to_multiset() == v@.to_multiset(),
        r@.len() == v@.len(),
{
    broadcast use vstd::seq_lib::group_seq_properties;

    let mut input = vstd::slice::slice_to_vec(v.as_slice());
    let mut out: Vec<u8> = Vec::new();
    proof {
        out@.to_multiset_ensures();
        input@.to_multiset_ensures();
        v@.to_multiset_ensures();
    }
    while input.len() > 0
        invariant
            out@.to_multiset().add(input@.to_multiset()) == v@.to_multiset(),
            u8s_sorted(out@),
            forall|i: int, j: int|
                0 <= i < out@.len() && 0 <= j < input@.len() ==> out@[i] <= input@[j],
        decreases input@.len(),
    {
        let mut best: usize = 0;
        let mut k: usize = 1;
        while k < input.len()
            invariant
                best < input@.len(),
                k <= input@.len(),
                input@.len() > 0,
                forall|i: int| 0 <= i < k ==> input@[best as int] <= #[trigger] input@[i],
            decreases input@.len() - k,
        {
            if input[k] < input[best] {
                best = k;
            }
            k = k + 1;
        }
        let ghost before = input@;
        let picked = input.remove(best);
        let ghost out_before = out@;
        out.push(picked);
        proof {
            before.to_multiset_ensures();
            out_before.to_multiset_ensures();
            assert(before.remove(best as int).to_multiset() =~= before.to_multiset().remove(
                picked,
            ));
            assert(out_before.push(picked).to_multiset() =~= out_before.to_multiset().insert(
                picked,
            ));
            assert(out@.to_multiset().add(input@.to_multiset()) =~= v@.to_multiset());
        }
    }
    proof {
        input@.to_multiset_ensures();
        out@.to_multiset_ensures();
        v@.to_multiset_ensures();
        assert(input@.to_multiset() =~= vstd::multiset::Multiset::<u8>::empty());
        assert(out@.to_multiset() =~= v@.to_multiset());
        assert(out@.len() == out@.to_multiset().len());
    }
    out
}

impl Dataset {
    /// The `(chromosome, source path)` pairs of this dataset, in
    /// ascending chromosome order, each path being the dataset's path
    /// with the `{chromosome}` placeholder replaced by the chromosome's
    /// decimal digits.  A dataset that is not split per chromosome keeps
    /// its path unchanged under the key 0.  Paths are byte strings; the
    /// caller resolves them against the configuration file's directory.
    pub fn get_paths(&self) -> (r: Vec<(u8, Vec<u8>)>)
        requires
            self.file_per_chromosome ==> self.chromosomes is Some,
        ensures
            self.file_per_chromosome ==> {
                let chroms = self.chromosomes->Some_0@;
                &&& r@.len() == chroms.len()
                &&& u8s_sorted(r@.map_values(|p: (u8, Vec<u8>)| p.0))
                &&& r@.map_values(|p: (u8, Vec<u8>)| p.0).to_multiset() == chroms.to_multiset()
                &&& forall|i: int|
                    0 <= i < r@.len() ==> (#[trigger] r@[i]).1@ == spec_replace(
                        encode_utf8(self.path@),
                        chromosome_pattern(),
                        dec_bytes(r@[i].0 as int),
                    )
            },
            !self.file_per_chromosome ==> r@.len() == 1 && r@[0].0 == 0 && r@[0].1@ == encode_utf8(
                self.path@,
            ),
    {
        let mut out: Vec<(u8, Vec<u8>)> = Vec::new();
        if !self.file_per_chromosome {
            let path_bytes = self.path.as_str().as_bytes_vec();
            out.push((0, path_bytes));
            return out;
        }
        let chroms = match &self.chromosomes {
            Some(c) => sort_u8s(c),
            None => {
                proof {
                    assert(false);
                }
                Vec::new()
            },
        };
        let pattern = chromosome_pattern_vec();
        let path_bytes = self.path.as_str().as_bytes_vec();
        let mut i: usize = 0;
        while i < chroms.len()
            invariant
                i <= chroms@.len(),
                u8s_sorted(chroms@),
                self.chromosomes is Some,
                chroms@.to_multiset() == self.chromosomes->Some_0@.to_multiset(),
                pattern@ == chromosome_pattern(),
                path_bytes@ == encode_utf8(self.path@),
                out@.len() == i,
                forall|k: int| 0 <= k < i ==> (#[trigger] out@[k]).0 == chroms@[k],
                forall|k: int|
                    0 <= k < i ==> (#[trigger] out@[k]).1@ == spec_replace(
                        encode_utf8(self.path@),
                        chromosome_pattern(),
                        dec_bytes(out@[k].0 as int),
                    ),
            decreases chroms@.len() - i,
        {
            let digits = u8_to_decimal(chroms[i]);
            let replaced = bytes_replace(
                path_bytes.as_slice(),
                pattern.as_slice(),
                digits.as_slice(),
            );
            out.push((chroms[i], replaced));
            i = i + 1;
        }
        proof {
            assert(out@.map_values(|p: (u8, Vec<u8>)| p.0) =~= chroms@);
        }
        out
    }
}

} // verus!

