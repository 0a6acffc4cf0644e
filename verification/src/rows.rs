//! Rows and cells: their encoding inside a block, the parser that reads
//! them back, and the round trip between the two.
//!
//! A row is one cell per column, in column order.  An integer cell is a
//! zig-zag varint, a float cell is its 8 IEEE-754 bytes big-endian, and a
//! string cell is one length byte followed by that many UTF-8 bytes.
use vstd::prelude::*;
use vstd::arithmetic::power2::*;
use vstd::utf8::*;
use vstd::string::StringExecFns;
use crate::DbError;
use crate::config::ColumnType;
use crate::deserialize::be_bytes;
use crate::deserialize::be_load;
use crate::deserialize::lemma_be_load_bound;
use crate::deserialize::lemma_be_load_be_bytes;
use crate::deserialize::lemma_be_bytes_len;
use crate::deserialize::read_f64_bits;
use crate::deserialize::read_string_u8;
use crate::deserialize::skip_f64;
use crate::deserialize::skip_string_at;
use crate::deserialize::skip_string_u8;
use crate::deserialize::string_at;
use crate::varint::encode_zigzag;
use crate::varint::lemma_zigzag_round_trip;
use crate::varint::read_zigzag_at;
use crate::varint::skip_vint_at;
use crate::varint::vint_skip_at;
use crate::varint::zigzag_at;

verus! {

/// One cell of a row.  A float cell carries the raw bit pattern of its
/// 64-bit IEEE-754 value; nothing in the store interprets those bits.
#[derive(Debug, Clone)]
pub enum CellValue {
    Integer(i64),
    Float(u64),
    Text(String),
}

/// One row: one cell per column, in column order.
pub type Row = Vec<CellValue>;

/// The mathematical value of a cell.
pub enum CellModel {
    Int(i64),
    Fl(u64),
    Str(Seq<char>),
}

impl View for CellValue {
    type V = CellModel;

    open spec fn view(&self) -> CellModel {
        match self {
            CellValue::Integer(v) => CellModel::Int(*v),
            CellValue::Float(b) => CellModel::Fl(*b),
            CellValue::Text(s) => CellModel::Str(s@),
        }
    }
}

impl DeepView for CellValue {
    type V = CellModel;

    open spec fn deep_view(&self) -> CellModel {
        self.view()
    }
}

/// The leading position of a row (meaningful when its first cell is an
/// integer).
pub open spec fn row_pos(r: Seq<CellModel>) -> int {
    r[0]->Int_0 as int
}

/// The encoded bytes of one cell.
pub open spec fn cell_bytes(c: CellModel) -> Seq<u8> {
    match c {
        CellModel::Int(v) => encode_zigzag(v as int),
        CellModel::Fl(bits) => be_bytes(bits as int, 8),
        CellModel::Str(s) => seq![(encode_utf8(s).len() as u8)] + encode_utf8(s),
    }
}

/// The encoded bytes of a run of cells, in order.
pub open spec fn cells_bytes(cs: Seq<CellModel>) -> Seq<u8>
    decreases cs.len(),
{
    if cs.len() == 0 {
        Seq::empty()
    } else {
        cell_bytes(cs.first()) + cells_bytes(cs.drop_first())
    }
}

/// The encoded bytes of one row.
pub open spec fn row_bytes(r: Seq<CellModel>) -> Seq<u8> {
    cells_bytes(r)
}

/// The encoded bytes of a whole block: its rows, in order, nothing else.
pub open spec fn block_bytes(rows: Seq<Seq<CellModel>>) -> Seq<u8>
    decreases rows.len(),
{
    if rows.len() == 0 {
        Seq::empty()
    } else {
        row_bytes(rows.first()) + block_bytes(rows.drop_first())
    }
}

/// A cell fits its column's declared type; a string cell also fits one
/// length byte.
pub open spec fn cell_conforms(c: CellModel, t: ColumnType) -> bool {
    match c {
        CellModel::Int(_) => t == ColumnType::Integer,
        CellModel::Fl(_) => t == ColumnType::Float,
        CellModel::Str(s) => t == ColumnType::VolatileString && encode_utf8(s).len() <= 255,
    }
}

/// A row fits a schema whose leading column is an integer.
pub open spec fn row_conforms(r: Seq<CellModel>, types: Seq<ColumnType>) -> bool {
    &&& r.len() == types.len()
    &&& types.len() >= 1
    &&& types[0] == ColumnType::Integer
    &&& forall|i: int| 0 <= i < r.len() ==> cell_conforms(#[trigger] r[i], types[i])
}

/// The position after skipping one cell of type `t` at `pos`, without
/// materializing it.
pub open spec fn skip_cell(t: ColumnType, b: Seq<u8>, pos: int) -> Option<int> {
    match t {
        ColumnType::Integer => match vint_skip_at(b, pos) {
            Some(l) => Some(pos + l),
            None => None,
        },
        ColumnType::Float => if 0 <= pos && pos + 8 <= b.len() {
            Some(pos + 8)
        } else {
            None
        },
        ColumnType::VolatileString => match skip_string_at(b, pos) {
            Some(n) => Some(pos + n),
            None => None,
        },
        ColumnType::HashtableString => None,
    }
}

/// The cell of type `t` read at `pos`, with the position after it.
pub open spec fn parse_cell(t: ColumnType, b: Seq<u8>, pos: int) -> Option<(CellModel, int)> {
    match t {
        ColumnType::Integer => match zigzag_at(b, pos) {
            Some((v, l)) => Some((CellModel::Int(v), pos + l)),
            None => None,
        },
        ColumnType::Float => if 0 <= pos && pos + 8 <= b.len() {
            Some((CellModel::Fl(be_load(b.subrange(pos, pos + 8)) as u64), pos + 8))
        } else {
            None
        },
        ColumnType::VolatileString => match string_at(b, pos) {
            Some((s, n)) => Some((CellModel::Str(s), pos + n)),
            None => None,
        },
        ColumnType::HashtableString => None,
    }
}

/// The position after skipping one cell of each type in `types`.
pub open spec fn skip_cells(types: Seq<ColumnType>, b: Seq<u8>, pos: int) -> Option<int>
    decreases types.len(),
{
    if types.len() == 0 {
        Some(pos)
    } else {
        match skip_cell(types.first(), b, pos) {
            Some(p2) => skip_cells(types.drop_first(), b, p2),
            None => None,
        }
    }
}

/// The cells read for each type in `types`, with the position after them.
pub open spec fn parse_cells(types: Seq<ColumnType>, b: Seq<u8>, pos: int) -> Option<
    (Seq<CellModel>, int),
>
    decreases types.len(),
{
    if types.len() == 0 {
        Some((Seq::empty(), pos))
    } else {
        match parse_cell(types.first(), b, pos) {
            Some((c, p2)) => match parse_cells(types.drop_first(), b, p2) {
                Some((cs, p3)) => Some((seq![c] + cs, p3)),
                None => None,
            },
            None => None,
        }
    }
}

/// What scanning a block from `pos` yields for the position interval
/// `[start, end)`: the rows whose leading position lies inside it, in
/// order.  The scan reads each leading position; a position at or past
/// `end` stops it, one below `start` has the rest of its row skipped
/// without being materialized.  `None` means the bytes are malformed.
pub open spec fn parse_range(
    types: Seq<ColumnType>,
    b: Seq<u8>,
    pos: int,
    start: int,
    end: int,
) -> Option<Seq<Seq<CellModel>>>
    decreases b.len() - pos,
{
    if pos < 0 || pos > b.len() {
        None
    } else if pos == b.len() {
        Some(Seq::empty())
    } else {
        match zigzag_at(b, pos) {
            None => None,
            Some((p, l)) => {
                if p >= end {
                    Some(Seq::empty())
                } else if p < start {
                    match skip_cells(types.drop_first(), b, pos + l) {
                        None => None,
                        Some(p2) => if pos < p2 <= b.len() {
                            parse_range(types, b, p2, start, end)
                        } else {
                            None
                        },
                    }
                } else {
                    match parse_cells(types.drop_first(), b, pos + l) {
                        None => None,
                        Some((cells, p2)) => if pos < p2 <= b.len() {
                            match parse_range(types, b, p2, start, end) {
                                None => None,
                                Some(rest) => Some(seq![seq![CellModel::Int(p)] + cells] + rest),
                            }
                        } else {
                            None
                        },
                    }
                }
            },
        }
    }
}

/// The rows of `rows` whose leading position lies in `[start, end)`, in
/// their original order.
pub open spec fn rows_in_range(rows: Seq<Seq<CellModel>>, start: int, end: int) -> Seq<
    Seq<CellModel>,
>
    decreases rows.len(),
{
    if rows.len() == 0 {
        Seq::empty()
    } else if start <= row_pos(rows.first()) < end {
        seq![rows.first()] + rows_in_range(rows.drop_first(), start, end)
    } else {
        rows_in_range(rows.drop_first(), start, end)
    }
}

/// Every row of `rows` fits the schema `types`.
pub open spec fn block_conforms(rows: Seq<Seq<CellModel>>, types: Seq<ColumnType>) -> bool {
    forall|i: int| 0 <= i < rows.len() ==> row_conforms(#[trigger] rows[i], types)
}

/// The rows stand in ascending order of their leading position.
pub open spec fn rows_sorted(rows: Seq<Seq<CellModel>>) -> bool {
    forall|i: int, j: int|
        0 <= i <= j < rows.len() ==> row_pos(#[trigger] rows[i]) <= row_pos(#[trigger] rows[j])
}

/// Map an `Option` of a row sequence under a prefix already emitted.
pub open spec fn with_prefix(acc: Seq<Seq<CellModel>>, o: Option<Seq<Seq<CellModel>>>) -> Option<
    Seq<Seq<CellModel>>,
> {
    match o {
        Some(r) => Some(acc + r),
        None => None,
    }
}

/// Skip one cell of each type in `types[from..]` starting at `pos`.
fn skip_cells_exec(types: &Vec<ColumnType>, from: usize, b: &[u8], pos: usize) -> (r: Result<
    usize,
    DbError,
>)
    requires
        from <= types@.len(),
        pos <= b@.len(),
    ensures
        match r {
            Ok(p2) => skip_cells(types@.skip(from as int), b@, pos as int) == Some(p2 as int) && pos
                <= p2 <= b@.len(),
            Err(e) => skip_cells(types@.skip(from as int), b@, pos as int) is None,
        },
{
    let blen = b.len();
    let mut cur = pos;
    let mut i = from;
    while i < types.len()
        invariant
            from <= i <= types@.len(),
            pos <= cur <= b@.len() <= usize::MAX,
            skip_cells(types@.skip(from as int), b@, pos as int) == skip_cells(
                types@.skip(i as int),
                b@,
                cur as int,
            ),
        decreases types@.len() - i,
    {
        proof {
            assert(types@.skip(i as int).first() == types@[i as int]);
            assert(types@.skip(i as int).drop_first() =~= types@.skip(i + 1));
        }
        let next: usize = match types[i] {
            ColumnType::Integer => {
                match skip_vint_at(b, cur) {
                    Ok(l) => cur + l,
                    Err(e) => {
                        return Err(e);
                    },
                }
            },
            ColumnType::Float => {
                match skip_f64(b, cur) {
                    Ok(n) => cur + n,
                    Err(e) => {
                        return Err(e);
                    },
                }
            },
            ColumnType::VolatileString => {
                match skip_string_u8(b, cur) {
                    Ok(n) => cur + n,
                    Err(e) => {
                        return Err(e);
                    },
                }
            },
            ColumnType::HashtableString => {
                return Err(
                    DbError::UnsupportedFeature(
                        String::from_str("hashtable-string cells are reserved and unsupported"),
                    ),
                );
            },
        };
        cur = next;
        i = i + 1;
    }
    proof {
        assert(types@.skip(types@.len() as int).len() == 0);
    }
    Ok(cur)
}

/// Read one cell of each type in `types[from..]` starting at `pos`,
/// appending the cells to `row`.
fn parse_cells_exec(
    types: &Vec<ColumnType>,
    from: usize,
    b: &[u8],
    pos: usize,
    row: &mut Vec<CellValue>,
) -> (r: Result<usize, DbError>)
    requires
        from <= types@.len(),
        pos <= b@.len(),
    ensures
        match r {
            Ok(p2) => {
                &&& parse_cells(types@.skip(from as int), b@, pos as int) matches Some(res)
                    && res.1 == p2 as int && final(row).deep_view() == old(row).deep_view() + res.0
                &&& pos <= p2 <= b@.len()
            },
            Err(e) => parse_cells(types@.skip(from as int), b@, pos as int) is None,
        },
{
    let blen = b.len();
    let mut cur = pos;
    let mut i = from;
    let ghost mut done: Seq<CellModel> = Seq::empty();
    proof {
        assert(row.deep_view() =~= old(row).deep_view() + done);
    }
    while i < types.len()
        invariant
            from <= i <= types@.len(),
            pos <= cur <= b@.len() <= usize::MAX,
            row.deep_view() == old(row).deep_view() + done,
            match parse_cells(types@.skip(i as int), b@, cur as int) {
                Some(rest) => parse_cells(types@.skip(from as int), b@, pos as int) == Some(
                    (done + rest.0, rest.1),
                ),
                None => parse_cells(types@.skip(from as int), b@, pos as int) is None,
            },
        decreases types@.len() - i,
    {
        proof {
            assert(types@.skip(i as int).first() == types@[i as int]);
            assert(types@.skip(i as int).drop_first() =~= types@.skip(i + 1));
        }
        let ghost old_done = done;
        let ghost prev_deep = row.deep_view();
        let next: usize = match types[i] {
            ColumnType::Integer => {
                match read_zigzag_at(b, cur) {
                    Ok((v, l)) => {
                        row.push(CellValue::Integer(v));
                        proof {
                            done = done + seq![CellModel::Int(v)];
                        }
                        cur + l
                    },
                    Err(e) => {
                        return Err(e);
                    },
                }
            },
            ColumnType::Float => {
                match read_f64_bits(b, cur) {
                    Ok((bits, after)) => {
                        proof {
                            lemma_be_load_bound(b@.subrange(cur as int, cur + 8));
                            lemma2_to64();
                            lemma2_to64_rest();
                        }
                        row.push(CellValue::Float(bits));
                        proof {
                            done = done + seq![CellModel::Fl(bits)];
                        }
                        after
                    },
                    Err(e) => {
                        return Err(e);
                    },
                }
            },
            ColumnType::VolatileString => {
                match read_string_u8(b, cur) {
                    Ok((st, n)) => {
                        let ghost sv = st@;
                        row.push(CellValue::Text(st));
                        proof {
                            done = done + seq![CellModel::Str(sv)];
                        }
                        cur + n
                    },
                    Err(e) => {
                        return Err(e);
                    },
                }
            },
            ColumnType::HashtableString => {
                return Err(
                    DbError::UnsupportedFeature(
                        String::from_str("hashtable-string cells are reserved and unsupported"),
                    ),
                );
            },
        };
        proof {
            assert(row.deep_view() =~= prev_deep + seq![done.last()]);
            assert(row.deep_view() =~= old(row).deep_view() + done);
            match parse_cells(types@.skip(i + 1), b@, next as int) {
                Some(rest) => {
                    assert(parse_cells(types@.skip(i as int), b@, cur as int) == Some(
                        (seq![done.last()] + rest.0, rest.1),
                    ));
                    assert(done + rest.0 =~= old_done + (seq![done.last()] + rest.0));
                },
                None => {},
            }
        }
        cur = next;
        i = i + 1;
    }
    proof {
        assert(types@.skip(types@.len() as int).len() == 0);
        assert(done + Seq::<CellModel>::empty() =~= done);
    }
    Ok(cur)
}

/// A prefix-and-suffix split of an equality of byte runs: where `x + y`
/// stands at `pos`, `x` stands at `pos` and `y` right after it.
pub proof fn lemma_split_concat(b: Seq<u8>, pos: int, x: Seq<u8>, y: Seq<u8>)
    requires
        0 <= pos,
        pos + x.len() + y.len() <= b.len(),
        b.subrange(pos, pos + x.len() + y.len()) == x + y,
    ensures
        b.subrange(pos, pos + x.len()) == x,
        b.subrange(pos + x.len(), pos + x.len() + y.len()) == y,
{
    assert forall|i: int| 0 <= i < x.len() implies b.subrange(pos, pos + x.len())[i] == x[i] by {
        assert(b.subrange(pos, pos + x.len() + y.len())[i] == b[pos + i]);
    };
    assert(b.subrange(pos, pos + x.len()) =~= x);
    assert forall|i: int| 0 <= i < y.len() implies b.subrange(
        pos + x.len(),
        pos + x.len() + y.len(),
    )[i] == y[i] by {
        assert(b.subrange(pos, pos + x.len() + y.len())[x.len() + i] == b[pos + x.len() + i]);
        assert((x + y)[x.len() + i] == y[i]);
    };
    assert(b.subrange(pos + x.len(), pos + x.len() + y.len()) =~= y);
}

/// Round trip for one cell: wherever its encoded bytes stand, parsing
/// reads the cell back and skipping consumes exactly its bytes.
pub proof fn lemma_cell_round_trip(c: CellModel, t: ColumnType, b: Seq<u8>, pos: int)
    requires
        cell_conforms(c, t),
        0 <= pos,
        pos + cell_bytes(c).len() <= b.len(),
        b.subrange(pos, pos + cell_bytes(c).len()) == cell_bytes(c),
    ensures
        parse_cell(t, b, pos) == Some((c, pos + cell_bytes(c).len())),
        skip_cell(t, b, pos) == Some(pos + cell_bytes(c).len()),
{
    match c {
        CellModel::Int(v) => {
            lemma_zigzag_round_trip(b, pos, v);
        },
        CellModel::Fl(bits) => {
            lemma_be_bytes_len(bits as int, 8);
            assert(b.subrange(pos, pos + 8) == be_bytes(bits as int, 8));
            assert(pow2(64) == 0x1_0000_0000_0000_0000) by {
                lemma2_to64_rest();
            };
            lemma_be_load_be_bytes(bits as int, 8);
        },
        CellModel::Str(s) => {
            let body = encode_utf8(s);
            let n = body.len() as int;
            let cb = cell_bytes(c);
            assert(cb.len() == 1 + n);
            assert(b[pos] == cb[0]);
            assert(cb[0] == n as u8);
            assert((n as u8) as int == n);
            assert forall|i: int| 0 <= i < n implies b.subrange(pos + 1, pos + 1 + n)[i]
                == body[i] by {
                assert(b.subrange(pos, pos + 1 + n)[1 + i] == b[pos + 1 + i]);
                assert(cb[1 + i] == body[i]);
            };
            assert(b.subrange(pos + 1, pos + 1 + n) =~= body);
            encode_utf8_valid_utf8(s);
            encode_utf8_decode_utf8(s);
            assert(string_at(b, pos) == Some((s, 1 + n)));
            assert(skip_string_at(b, pos) == Some(1 + n));
        },
    }
}

/// Round trip for a run of cells: parsing reads them all back in order,
/// and skipping consumes exactly their bytes.
pub proof fn lemma_cells_round_trip(cs: Seq<CellModel>, types: Seq<ColumnType>, b: Seq<u8>, pos: int)
    requires
        cs.len() == types.len(),
        forall|i: int| 0 <= i < cs.len() ==> cell_conforms(#[trigger] cs[i], types[i]),
        0 <= pos,
        pos + cells_bytes(cs).len() <= b.len(),
        b.subrange(pos, pos + cells_bytes(cs).len()) == cells_bytes(cs),
    ensures
        parse_cells(types, b, pos) == Some((cs, pos + cells_bytes(cs).len())),
        skip_cells(types, b, pos) == Some(pos + cells_bytes(cs).len()),
    decreases cs.len(),
{
    if cs.len() == 0 {
    } else {
        let first = cs.first();
        let cb = cell_bytes(first);
        let rest_bytes = cells_bytes(cs.drop_first());
        assert(cells_bytes(cs) == cb + rest_bytes);
        lemma_split_concat(b, pos, cb, rest_bytes);
        assert(cell_conforms(first, types[0]));
        assert(types.first() == types[0]);
        lemma_cell_round_trip(first, types.first(), b, pos);
        assert(cs.drop_first().len() == types.drop_first().len());
        assert(forall|i: int|
            0 <= i < cs.drop_first().len() ==> cell_conforms(
                #[trigger] cs.drop_first()[i],
                types.drop_first()[i],
            ));
        lemma_cells_round_trip(cs.drop_first(), types.drop_first(), b, pos + cb.len());
        assert(seq![first] + cs.drop_first() =~= cs);
    }
}

/// No row is kept when every leading position lies at or past `end`.
proof fn lemma_rows_in_range_all_past_end(rows: Seq<Seq<CellModel>>, start: int, end: int)
    requires
        forall|i: int| 0 <= i < rows.len() ==> row_pos(#[trigger] rows[i]) >= end,
    ensures
        rows_in_range(rows, start, end) == Seq::<Seq<CellModel>>::empty(),
    decreases rows.len(),
{
    if rows.len() > 0 {
        assert(row_pos(rows[0]) >= end);
        assert(forall|i: int|
            0 <= i < rows.drop_first().len() ==> row_pos(#[trigger] rows.drop_first()[i]) >= end);
        lemma_rows_in_range_all_past_end(rows.drop_first(), start, end);
    }
}

/// Round trip for a whole block: scanning the serialized bytes of sorted,
/// schema-conforming rows yields exactly the rows whose leading position
/// lies in `[start, end)`, in order.
pub proof fn lemma_block_round_trip(
    rows: Seq<Seq<CellModel>>,
    types: Seq<ColumnType>,
    b: Seq<u8>,
    pos: int,
    start: int,
    end: int,
)
    requires
        block_conforms(rows, types),
        rows_sorted(rows),
        types.len() >= 1,
        types[0] == ColumnType::Integer,
        0 <= pos,
        pos + block_bytes(rows).len() == b.len(),
        b.subrange(pos, b.len() as int) == block_bytes(rows),
    ensures
        parse_range(types, b, pos, start, end) == Some(rows_in_range(rows, start, end)),
    decreases rows.len(),
{
    if rows.len() == 0 {
        assert(pos == b.len());
    } else {
        let r = rows.first();
        assert(row_conforms(r, types));
        assert(cell_conforms(r[0], ColumnType::Integer));
        let p = r[0]->Int_0;
        assert(r[0] == CellModel::Int(p));
        let head = cell_bytes(r[0]);
        let tail_cells = cells_bytes(r.drop_first());
        let rest_blocks = block_bytes(rows.drop_first());
        assert(block_bytes(rows) == (head + tail_cells) + rest_blocks);
        assert((head + tail_cells) + rest_blocks =~= head + (tail_cells + rest_blocks));
        assert(b.subrange(pos, b.len() as int) == head + (tail_cells + rest_blocks));
        assert(pos + head.len() + (tail_cells + rest_blocks).len() <= b.len());
        lemma_split_concat(b, pos, head, tail_cells + rest_blocks);
        let el = head.len() as int;
        lemma_zigzag_round_trip(b, pos, p);
        assert(zigzag_at(b, pos) == Some((p, el)));
        assert(pos < b.len());
        lemma_split_concat(b, pos + el, tail_cells, rest_blocks);
        // the remaining rows and their properties
        assert(block_conforms(rows.drop_first(), types)) by {
            assert(forall|i: int|
                0 <= i < rows.drop_first().len() ==> row_conforms(
                    #[trigger] rows.drop_first()[i],
                    types,
                ));
        };
        assert(rows_sorted(rows.drop_first())) by {
            assert(forall|i: int, j: int|
                0 <= i <= j < rows.drop_first().len() ==> row_pos(#[trigger] rows.drop_first()[i])
                    <= row_pos(#[trigger] rows.drop_first()[j]));
        };
        let p2 = pos + el + tail_cells.len();
        if p >= end {
            assert forall|i: int| 0 <= i < rows.len() implies row_pos(#[trigger] rows[i])
                >= end by {
                assert(row_pos(rows[0]) <= row_pos(rows[i]));
            };
            lemma_rows_in_range_all_past_end(rows, start, end);
        } else {
            assert(r.drop_first().len() == types.drop_first().len());
            assert(forall|i: int|
                0 <= i < r.drop_first().len() ==> cell_conforms(
                    #[trigger] r.drop_first()[i],
                    types.drop_first()[i],
                ));
            lemma_cells_round_trip(r.drop_first(), types.drop_first(), b, pos + el);
            assert(pos < p2 <= b.len());
            lemma_block_round_trip(rows.drop_first(), types, b, p2, start, end);
            if p < start {
                assert(parse_range(types, b, pos, start, end) == parse_range(
                    types,
                    b,
                    p2,
                    start,
                    end,
                ));
            } else {
                assert(seq![CellModel::Int(p)] + r.drop_first() =~= r);
                assert(parse_range(types, b, pos, start, end) == Some(
                    seq![r] + rows_in_range(rows.drop_first(), start, end),
                ));
                assert(seq![r] + rows_in_range(rows.drop_first(), start, end) =~= rows_in_range(
                    rows,
                    start,
                    end,
                ));
            }
        }
    }
}

/// Scan a block's bytes and append every row whose leading position lies
/// in `[position_value_start, position_value_end)` to `out_rows`, in
/// order.  Succeeds exactly when the scanned bytes are well formed; the
/// appended rows are exactly what [`parse_range`] names.
/// Appending to a row list keeps the existing rows as its prefix.
pub proof fn lemma_prefix_of_append(a: Seq<Seq<CellModel>>, b: Seq<Seq<CellModel>>)
    ensures
        (a + b).subrange(0, a.len() as int) == a,
        (a + b).len() >= a.len(),
{
    assert((a + b).subrange(0, a.len() as int) =~= a);
}

#[verifier::rlimit(100)]
pub fn deserialize_range(
    types: &Vec<ColumnType>,
    bytes: &[u8],
    position_value_start: u64,
    position_value_end: u64,
    out_rows: &mut Vec<Row>,
) -> (r: Result<(), DbError>)
    requires
        types@.len() >= 1,
        types@[0] == ColumnType::Integer,
    ensures
        match r {
            Ok(()) => {
                &&& parse_range(
                    types@,
                    bytes@,
                    0,
                    position_value_start as int,
                    position_value_end as int,
                ) matches Some(rows)
                &&& final(out_rows).deep_view() == old(out_rows).deep_view() + rows
            },
            Err(e) => {
                &&& parse_range(
                    types@,
                    bytes@,
                    0,
                    position_value_start as int,
                    position_value_end as int,
                ) is None
                &&& final(out_rows)@.len() >= old(out_rows)@.len()
                &&& final(out_rows).deep_view().subrange(
                    0,
                    old(out_rows).deep_view().len() as int,
                ) == old(out_rows).deep_view()
            },
        },
{
    let ghost s = position_value_start as int;
    let ghost e = position_value_end as int;
    let blen = bytes.len();
    let mut pos: usize = 0;
    let ghost mut acc: Seq<Seq<CellModel>> = Seq::empty();
    proof {
        match parse_range(types@, bytes@, 0, s, e) {
            Some(rest) => {
                assert(acc + rest =~= rest);
            },
            None => {},
        }
    }
    while pos < blen
        invariant
            types@.len() >= 1,
            types@[0] == ColumnType::Integer,
            pos <= blen,
            blen == bytes@.len(),
            s == position_value_start as int,
            e == position_value_end as int,
            out_rows.deep_view() == old(out_rows).deep_view() + acc,
            parse_range(types@, bytes@, 0, s, e) == with_prefix(
                acc,
                parse_range(types@, bytes@, pos as int, s, e),
            ),
        decreases blen - pos,
    {
        let (p, l) = match read_zigzag_at(bytes, pos) {
            Ok(res) => res,
            Err(err) => {
                proof {
                    lemma_prefix_of_append(old(out_rows).deep_view(), acc);
                }
                return Err(
                    err.with_context(
                        String::from_str("at byte offset ").concat(
                            crate::u64_to_string(pos as u64).as_str(),
                        ),
                    ),
                );
            },
        };
        if p >= 0 && (p as u64) >= position_value_end {
            proof {
                assert(parse_range(types@, bytes@, pos as int, s, e) == Some(
                    Seq::<Seq<CellModel>>::empty(),
                ));
                assert(acc + Seq::<Seq<CellModel>>::empty() =~= acc);
            }
            return Ok(());
        }
        if p < 0 || (p as u64) < position_value_start {
            let p2 = match skip_cells_exec(types, 1, bytes, pos + l) {
                Ok(p2) => p2,
                Err(err) => {
                    proof {
                        assert(types@.skip(1) =~= types@.drop_first());
                        lemma_prefix_of_append(old(out_rows).deep_view(), acc);
                    }
                    return Err(
                        err.with_context(
                            String::from_str("at byte offset ").concat(
                                crate::u64_to_string(pos as u64).as_str(),
                            ),
                        ),
                    );
                },
            };
            proof {
                assert(types@.skip(1) =~= types@.drop_first());
                assert(parse_range(types@, bytes@, pos as int, s, e) == parse_range(
                    types@,
                    bytes@,
                    p2 as int,
                    s,
                    e,
                ));
            }
            pos = p2;
        } else {
            let mut row: Vec<CellValue> = Vec::new();
            row.push(CellValue::Integer(p));
            let ghost row0 = row.deep_view();
            let p2 = match parse_cells_exec(types, 1, bytes, pos + l, &mut row) {
                Ok(p2) => p2,
                Err(err) => {
                    proof {
                        assert(types@.skip(1) =~= types@.drop_first());
                        lemma_prefix_of_append(old(out_rows).deep_view(), acc);
                    }
                    return Err(
                        err.with_context(
                            String::from_str("at byte offset ").concat(
                                crate::u64_to_string(pos as u64).as_str(),
                            ),
                        ),
                    );
                },
            };
            proof {
                assert(types@.skip(1) =~= types@.drop_first());
                assert(row0 =~= seq![CellModel::Int(p)]);
            }
            let ghost cells = parse_cells(types@.drop_first(), bytes@, pos + l)->Some_0.0;
            let ghost rowm = seq![CellModel::Int(p)] + cells;
            proof {
                assert(row.deep_view() =~= rowm);
            }
            out_rows.push(row);
            proof {
                assert(out_rows.deep_view() =~= old(out_rows).deep_view() + acc + seq![rowm]);
                let old_acc = acc;
                acc = acc + seq![rowm];
                assert(out_rows.deep_view() =~= old(out_rows).deep_view() + acc);
                match parse_range(types@, bytes@, p2 as int, s, e) {
                    Some(rest) => {
                        assert(parse_range(types@, bytes@, pos as int, s, e) == Some(
                            seq![rowm] + rest,
                        ));
                        assert(old_acc + (seq![rowm] + rest) =~= acc + rest);
                    },
                    None => {},
                }
            }
            pos = p2;
        }
    }
    proof {
        assert(parse_range(types@, bytes@, pos as int, s, e) == Some(
            Seq::<Seq<CellModel>>::empty(),
        ));
        assert(acc + Seq::<Seq<CellModel>>::empty() =~= acc);
    }
    Ok(())
}

/// Nothing is kept when no row's leading position lies in `[start, end)`.
pub proof fn lemma_rows_in_range_none(rows: Seq<Seq<CellModel>>, start: int, end: int)
    requires
        forall|i: int|
            0 <= i < rows.len() ==> !(start <= row_pos(#[trigger] rows[i]) < end),
    ensures
        rows_in_range(rows, start, end) == Seq::<Seq<CellModel>>::empty(),
    decreases rows.len(),
{
    if rows.len() > 0 {
        assert(!(start <= row_pos(rows[0]) < end));
        assert(forall|i: int|
            0 <= i < rows.drop_first().len() ==> !(start <= row_pos(
                #[trigger] rows.drop_first()[i],
            ) < end));
        lemma_rows_in_range_none(rows.drop_first(), start, end);
    }
}

/// The range filter distributes over concatenation.
pub proof fn lemma_rows_in_range_concat(
    a: Seq<Seq<CellModel>>,
    b: Seq<Seq<CellModel>>,
    start: int,
    end: int,
)
    ensures
        rows_in_range(a + b, start, end) == rows_in_range(a, start, end) + rows_in_range(
            b,
            start,
            end,
        ),
    decreases a.len(),
{
    if a.len() == 0 {
        assert(a + b =~= b);
        assert(rows_in_range(a, start, end) + rows_in_range(b, start, end) =~= rows_in_range(
            b,
            start,
            end,
        ));
    } else {
        assert((a + b).first() == a.first());
        assert((a + b).drop_first() =~= a.drop_first() + b);
        lemma_rows_in_range_concat(a.drop_first(), b, start, end);
        if start <= row_pos(a.first()) < end {
            assert(seq![a.first()] + (rows_in_range(a.drop_first(), start, end) + rows_in_range(
                b,
                start,
                end,
            )) =~= (seq![a.first()] + rows_in_range(a.drop_first(), start, end)) + rows_in_range(
                b,
                start,
                end,
            ));
        }
    }
}

/// Two ranges that admit the same rows of `rows` filter it identically.
pub proof fn lemma_rows_in_range_congruence(
    rows: Seq<Seq<CellModel>>,
    s1: int,
    e1: int,
    s2: int,
    e2: int,
)
    requires
        forall|i: int|
            0 <= i < rows.len() ==> ((s1 <= row_pos(#[trigger] rows[i]) < e1) <==> (s2 <= row_pos(
                rows[i],
            ) < e2)),
    ensures
        rows_in_range(rows, s1, e1) == rows_in_range(rows, s2, e2),
    decreases rows.len(),
{
    if rows.len() > 0 {
        assert((s1 <= row_pos(rows[0]) < e1) <==> (s2 <= row_pos(rows[0]) < e2));
        assert(forall|i: int|
            0 <= i < rows.drop_first().len() ==> ((s1 <= row_pos(#[trigger] rows.drop_first()[i])
                < e1) <==> (s2 <= row_pos(rows.drop_first()[i]) < e2)));
        lemma_rows_in_range_congruence(rows.drop_first(), s1, e1, s2, e2);
    }
}

/// The interval of every representable leading position.
pub open spec fn full_scan_start() -> int {
    -0x8000_0000_0000_0000
}

/// One past the largest representable leading position.
pub open spec fn full_scan_end() -> int {
    0x8000_0000_0000_0000
}

/// Every conforming row survives a scan over the full position interval.
pub proof fn lemma_rows_in_range_full(rows: Seq<Seq<CellModel>>, types: Seq<ColumnType>)
    requires
        block_conforms(rows, types),
    ensures
        rows_in_range(rows, full_scan_start(), full_scan_end()) == rows,
    decreases rows.len(),
{
    if rows.len() > 0 {
        assert(row_conforms(rows[0], types));
        assert(cell_conforms(rows[0][0], types[0]));
        assert(full_scan_start() <= row_pos(rows.first()) < full_scan_end());
        assert(forall|i: int|
            0 <= i < rows.drop_first().len() ==> row_conforms(
                #[trigger] rows.drop_first()[i],
                types,
            ));
        lemma_rows_in_range_full(rows.drop_first(), types);
        assert(seq![rows.first()] + rows.drop_first() =~= rows);
    }
}

/// Appending one cell appends its bytes.
pub proof fn lemma_cells_bytes_snoc(cs: Seq<CellModel>, c: CellModel)
    ensures
        cells_bytes(cs.push(c)) == cells_bytes(cs) + cell_bytes(c),
    decreases cs.len(),
{
    if cs.len() == 0 {
        assert(cs.push(c).first() == c);
        assert(cs.push(c).drop_first() =~= Seq::<CellModel>::empty());
        assert(cells_bytes(Seq::<CellModel>::empty()) == Seq::<u8>::empty());
        assert(cells_bytes(cs.push(c)) == cell_bytes(c) + Seq::<u8>::empty());
        assert(cell_bytes(c) + Seq::<u8>::empty() =~= cell_bytes(c));
        assert(cells_bytes(cs) + cell_bytes(c) =~= cell_bytes(c));
    } else {
        assert(cs.push(c).first() == cs.first());
        assert(cs.push(c).drop_first() =~= cs.drop_first().push(c));
        lemma_cells_bytes_snoc(cs.drop_first(), c);
        assert(cell_bytes(cs.first()) + (cells_bytes(cs.drop_first()) + cell_bytes(c))
            =~= (cell_bytes(cs.first()) + cells_bytes(cs.drop_first())) + cell_bytes(c));
    }
}

/// Appending one row appends its bytes.
pub proof fn lemma_block_bytes_snoc(rows: Seq<Seq<CellModel>>, r: Seq<CellModel>)
    ensures
        block_bytes(rows.push(r)) == block_bytes(rows) + row_bytes(r),
    decreases rows.len(),
{
    if rows.len() == 0 {
        assert(rows.push(r).first() == r);
        assert(rows.push(r).drop_first() =~= Seq::<Seq<CellModel>>::empty());
        assert(block_bytes(Seq::<Seq<CellModel>>::empty()) == Seq::<u8>::empty());
        assert(block_bytes(rows.push(r)) == row_bytes(r) + Seq::<u8>::empty());
        assert(row_bytes(r) + Seq::<u8>::empty() =~= row_bytes(r));
        assert(block_bytes(rows) + row_bytes(r) =~= row_bytes(r));
    } else {
        assert(rows.push(r).first() == rows.first());
        assert(rows.push(r).drop_first() =~= rows.drop_first().push(r));
        lemma_block_bytes_snoc(rows.drop_first(), r);
        assert(row_bytes(rows.first()) + (block_bytes(rows.drop_first()) + row_bytes(r))
            =~= (row_bytes(rows.first()) + block_bytes(rows.drop_first())) + row_bytes(r));
    }
}

/// A scan over an empty interval keeps nothing.
pub proof fn lemma_rows_in_range_degenerate(rows: Seq<Seq<CellModel>>, start: int, end: int)
    requires
        start >= end,
    ensures
        rows_in_range(rows, start, end) == Seq::<Seq<CellModel>>::empty(),
{
    lemma_rows_in_range_none(rows, start, end);
}

/// A subrange of a preserved prefix is itself preserved.
pub proof fn lemma_subrange_stable(f1: Seq<u8>, f2: Seq<u8>, a: int, b: int)
    requires
        f1.len() <= f2.len(),
        f2.subrange(0, f1.len() as int) == f1,
        0 <= a <= b <= f1.len(),
    ensures
        f2.subrange(a, b) == f1.subrange(a, b),
{
    assert forall|i: int| 0 <= i < b - a implies f2.subrange(a, b)[i] == f1.subrange(a, b)[i] by {
        assert(f2.subrange(0, f1.len() as int)[a + i] == f1[a + i]);
    };
    assert(f2.subrange(a, b) =~= f1.subrange(a, b));
}

} // verus!




