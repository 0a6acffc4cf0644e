//! The source ingester: tokenizes delimited text lines (honouring double
//! quotes), detects the delimiter, resolves schema columns to source
//! columns, applies missing-value policies, parses cells and sorts rows
//! by their leading position.
use vstd::prelude::*;
use vstd::utf8::valid_utf8;
use vstd::utf8::decode_utf8;
use vstd::utf8::encode_utf8;
use vstd::string::StringExecFns;
use vstd::string::StrSliceExecFns;
use crate::DbError;
use crate::config::Column;
use crate::config::ColumnType;
use crate::config::MissingValuePolicy;
use crate::rows::CellValue;
use crate::rows::CellModel;
use crate::rows::Row;
use crate::rows::row_pos;
use crate::rows::rows_sorted;
use crate::deserialize::string_from_utf8;

verus! {

/// Raised when fewer lines than the requested sample size were read.
#[derive(Debug, Clone, Copy, PartialEq, Eq, Structural)]
pub struct NotEnoughLinesError;

/// One raw source field: the bytes of a cell as the tokenizer cut it, or
/// a float already turned into its 64-bit IEEE-754 bit pattern by the
/// caller (text-to-float conversion is floating-point work and lives
/// outside the library).
#[derive(Debug, Clone)]
pub enum RawCell {
    Text(Vec<u8>),
    FloatBits(u64),
}

/// The double-quote state after reading `b` starting from `in_str`.
pub open spec fn quotes_toggle(b: Seq<u8>, in_str: bool) -> bool
    decreases b.len(),
{
    if b.len() == 0 {
        in_str
    } else {
        quotes_toggle(b.drop_first(), if b.first() == 0x22u8 {
            !in_str
        } else {
            in_str
        })
    }
}

/// Offset of the first unquoted delimiter in `b` (its length if none).
pub open spec fn first_sep(b: Seq<u8>, d: u8, in_str: bool) -> int
    decreases b.len(),
{
    if b.len() == 0 {
        0
    } else {
        let in2 = if b.first() == 0x22u8 {
            !in_str
        } else {
            in_str
        };
        if b.first() == d && !in2 {
            0
        } else {
            1 + first_sep(b.drop_first(), d, in2)
        }
    }
}

/// The fields of `b` cut at every unquoted delimiter.
pub open spec fn raw_split(b: Seq<u8>, d: u8, in_str: bool) -> Seq<Seq<u8>>
    decreases b.len(),
{
    let j = first_sep(b, d, in_str);
    if j < 0 || j >= b.len() {
        seq![b]
    } else {
        seq![b.subrange(0, j)] + raw_split(
            b.subrange(j + 1, b.len() as int),
            d,
            quotes_toggle(b.subrange(0, j + 1), in_str),
        )
    }
}

/// What tokenizing one line yields: the fields cut at unquoted
/// delimiters, except that a final empty field is not reported (a line
/// ending in a delimiter yields no field after it, and an empty line
/// yields none at all).
pub open spec fn split_fields(b: Seq<u8>, d: u8) -> Seq<Seq<u8>> {
    let f = raw_split(b, d, false);
    if f.len() > 0 && f.last().len() == 0 {
        f.drop_last()
    } else {
        f
    }
}

pub proof fn lemma_first_sep_bounds(b: Seq<u8>, d: u8, in_str: bool)
    ensures
        0 <= first_sep(b, d, in_str) <= b.len(),
    decreases b.len(),
{
    if b.len() > 0 {
        let in2 = if b.first() == 0x22u8 {
            !in_str
        } else {
            in_str
        };
        lemma_first_sep_bounds(b.drop_first(), d, in2);
    }
}

proof fn lemma_raw_split_nonempty(b: Seq<u8>, d: u8, in_str: bool)
    ensures
        raw_split(b, d, in_str).len() >= 1,
    decreases b.len(),
{
    lemma_first_sep_bounds(b, d, in_str);
    let j = first_sep(b, d, in_str);
    if j < b.len() {
        lemma_raw_split_nonempty(
            b.subrange(j + 1, b.len() as int),
            d,
            quotes_toggle(b.subrange(0, j + 1), in_str),
        );
    }
}

/// One scan step: consuming the byte at `i` relates the split of the
/// suffix at `i` to the split of the suffix at `i + 1`.
proof fn lemma_split_step(b: Seq<u8>, d: u8, i: int, in_str: bool)
    requires
        0 <= i < b.len(),
    ensures
        ({
            let c = b[i];
            let in2 = if c == 0x22u8 {
                !in_str
            } else {
                in_str
            };
            let rest = raw_split(b.subrange(i + 1, b.len() as int), d, in2);
            if c == d && !in2 {
                raw_split(b.subrange(i, b.len() as int), d, in_str) == seq![Seq::<u8>::empty()]
                    + rest
            } else {
                raw_split(b.subrange(i, b.len() as int), d, in_str) == seq![
                    seq![c] + rest.first(),
                ] + rest.drop_first()
            }
        }),
{
    let c = b[i];
    let in2 = if c == 0x22u8 {
        !in_str
    } else {
        in_str
    };
    let s = b.subrange(i, b.len() as int);
    let s1 = b.subrange(i + 1, b.len() as int);
    assert(s.first() == c);
    assert(s.drop_first() =~= s1);
    lemma_first_sep_bounds(s1, d, in2);
    lemma_raw_split_nonempty(s1, d, in2);
    let j = first_sep(s, d, in_str);
    if c == d && !in2 {
        assert(j == 0);
        assert(s.subrange(0, 0) =~= Seq::<u8>::empty());
        assert(s.subrange(1, s.len() as int) =~= s1);
        assert(s.subrange(0, 1) =~= seq![c]);
        assert(seq![c].first() == c);
        assert(seq![c].drop_first() =~= Seq::<u8>::empty());
        assert(quotes_toggle(Seq::<u8>::empty(), in2) == in2);
        assert(quotes_toggle(seq![c], in_str) == in2);
    } else {
        assert(j == 1 + first_sep(s1, d, in2));
        let j1 = first_sep(s1, d, in2);
        if j >= s.len() {
            assert(j1 >= s1.len());
            assert(raw_split(s, d, in_str) == seq![s]);
            assert(raw_split(s1, d, in2) == seq![s1]);
            assert(s =~= seq![c] + s1);
            assert(seq![seq![c] + s1] + raw_split(s1, d, in2).drop_first() =~= seq![s]);
        } else {
            assert(raw_split(s, d, in_str) == seq![s.subrange(0, j)] + raw_split(
                s.subrange(j + 1, s.len() as int),
                d,
                quotes_toggle(s.subrange(0, j + 1), in_str),
            ));
            assert(raw_split(s1, d, in2) == seq![s1.subrange(0, j1)] + raw_split(
                s1.subrange(j1 + 1, s1.len() as int),
                d,
                quotes_toggle(s1.subrange(0, j1 + 1), in2),
            ));
            assert(s.subrange(0, j) =~= seq![c] + s1.subrange(0, j1));
            assert(s.subrange(j + 1, s.len() as int) =~= s1.subrange(j1 + 1, s1.len() as int));
            assert(s.subrange(0, j + 1).drop_first() =~= s1.subrange(0, j1 + 1));
            assert(quotes_toggle(s.subrange(0, j + 1), in_str) == quotes_toggle(
                s1.subrange(0, j1 + 1),
                in2,
            ));
            let rest = raw_split(s1, d, in2);
            assert(rest.first() == s1.subrange(0, j1));
            assert(rest.drop_first() =~= raw_split(
                s1.subrange(j1 + 1, s1.len() as int),
                d,
                quotes_toggle(s1.subrange(0, j1 + 1), in2),
            ));
            assert(seq![seq![c] + rest.first()] + rest.drop_first() =~= raw_split(s, d, in_str));
        }
    }
}

/// Tokenize one line: cut it at every unquoted `split_on` byte.  A
/// double quote toggles an in-string flag that disables the delimiter
/// until it is toggled back.
pub fn split_line(line: &[u8], split_on: u8) -> (r: Vec<Vec<u8>>)
    ensures
        r.deep_view() == split_fields(line@, split_on),
{
    let n = line.len();
    let mut fields: Vec<Vec<u8>> = Vec::new();
    let mut cur: Vec<u8> = Vec::new();
    let mut in_str = false;
    let mut i: usize = 0;
    proof {
        assert(line@.subrange(0, line@.len() as int) =~= line@);
        lemma_raw_split_nonempty(line@, split_on, false);
        assert(fields.deep_view() =~= Seq::<Seq<u8>>::empty());
        assert(cur@ =~= Seq::<u8>::empty());
        let whole = raw_split(line@, split_on, false);
        assert(Seq::<Seq<u8>>::empty() + seq![Seq::<u8>::empty() + whole.first()]
            + whole.drop_first() =~~= whole);
    }
    while i < n
        invariant
            i <= n == line@.len(),
            ({
                let rest = raw_split(line@.subrange(i as int, line@.len() as int), split_on, in_str);
                raw_split(line@, split_on, false) == fields.deep_view() + seq![cur@ + rest.first()]
                    + rest.drop_first()
            }),
        decreases n - i,
    {
        let ghost old_fields = fields.deep_view();
        let ghost old_cur = cur@;
        let ghost old_in = in_str;
        let c = line[i];
        proof {
            lemma_split_step(line@, split_on, i as int, in_str);
            lemma_raw_split_nonempty(
                line@.subrange(i + 1, line@.len() as int),
                split_on,
                if c == 0x22u8 {
                    !in_str
                } else {
                    in_str
                },
            );
        }
        if c == 0x22 {
            in_str = !in_str;
        }
        if c == split_on && !in_str {
            fields.push(cur);
            cur = Vec::new();
            proof {
                let rest = raw_split(
                    line@.subrange(i + 1, line@.len() as int),
                    split_on,
                    in_str,
                );
                assert(fields.deep_view() =~~= old_fields.push(old_cur));
                assert(old_cur + Seq::<u8>::empty() =~= old_cur);
                let old_rest = raw_split(
                    line@.subrange(i as int, line@.len() as int),
                    split_on,
                    old_in,
                );
                assert(old_rest == seq![Seq::<u8>::empty()] + rest);
                assert(old_rest.first() =~= Seq::<u8>::empty());
                assert(old_rest.drop_first() =~= rest);
                assert(old_cur + old_rest.first() =~= old_cur);
                assert(old_fields + seq![old_cur] + rest =~~= (old_fields.push(old_cur)) + seq![
                    Seq::<u8>::empty() + rest.first(),
                ] + rest.drop_first());
            }
        } else {
            cur.push(c);
            proof {
                let rest = raw_split(
                    line@.subrange(i + 1, line@.len() as int),
                    split_on,
                    in_str,
                );
                let old_rest = raw_split(
                    line@.subrange(i as int, line@.len() as int),
                    split_on,
                    old_in,
                );
                assert(old_rest == seq![seq![c] + rest.first()] + old_rest.drop_first());
                assert(old_rest.drop_first() =~= rest.drop_first());
                assert(cur@ =~= old_cur.push(c));
                assert(old_cur + (seq![c] + rest.first()) =~= cur@ + rest.first());
                assert(old_fields + seq![old_cur + old_rest.first()] + old_rest.drop_first()
                    =~~= old_fields + seq![cur@ + rest.first()] + rest.drop_first());
            }
        }
        i = i + 1;
    }
    proof {
        let tail = line@.subrange(n as int, line@.len() as int);
        assert(tail =~= Seq::<u8>::empty());
        assert(first_sep(tail, split_on, in_str) == 0);
        assert(raw_split(tail, split_on, in_str) == seq![tail]);
        assert(cur@ + tail =~= cur@);
        assert(raw_split(line@, split_on, false) =~~= fields.deep_view().push(cur@));
    }
    if cur.len() > 0 {
        fields.push(cur);
        proof {
            let whole = raw_split(line@, split_on, false);
            assert(whole.last() == cur@);
            assert(fields.deep_view() =~~= whole);
        }
    } else {
        proof {
            let whole = raw_split(line@, split_on, false);
            assert(whole.last() =~= Seq::<u8>::empty());
            assert(whole.drop_last() =~~= fields.deep_view());
        }
    }
    fields
}

/// An iterator-like cursor over one line's fields: it tokenizes the
/// line once and hands the fields out in order.
pub struct FastSplit {
    pub fields: Vec<Vec<u8>>,
    pub cursor: usize,
}

impl FastSplit {
    /// Tokenize `buf` on every unquoted `split_on` byte and stand at the
    /// first field.
    pub fn new(buf: &[u8], split_on: u8) -> (r: Self)
        ensures
            r.fields.deep_view() == split_fields(buf@, split_on),
            r.cursor == 0,
    {
        FastSplit { fields: split_line(buf, split_on), cursor: 0 }
    }

    /// The next field, or `None` when every field has been handed out.
    pub fn next(&mut self) -> (r: Option<Vec<u8>>)
        ensures
            final(self).fields == old(self).fields,
            match r {
                Some(f) => {
                    &&& old(self).cursor < old(self).fields@.len()
                    &&& f@ == old(self).fields.deep_view()[old(self).cursor as int]
                    &&& final(self).cursor == old(self).cursor + 1
                },
                None => {
                    &&& old(self).cursor >= old(self).fields@.len()
                    &&& final(self).cursor == old(self).cursor
                },
            },
    {
        if self.cursor >= self.fields.len() {
            return None;
        }
        let field = copy_field_bytes(&self.fields[self.cursor]);
        proof {
            assert(self.fields.deep_view()[self.cursor as int]
                == self.fields@[self.cursor as int]@);
        }
        self.cursor = self.cursor + 1;
        Some(field)
    }
}

/// ASCII whitespace trimmed from line ends before tokenizing.
pub open spec fn is_trim_byte(c: u8) -> bool {
    c == 0x20 || c == 0x09 || c == 0x0d || c == 0x0a
}

/// `b` without its trailing ASCII whitespace.
pub open spec fn trim_end_spec(b: Seq<u8>) -> Seq<u8>
    decreases b.len(),
{
    if b.len() > 0 && is_trim_byte(b.last()) {
        trim_end_spec(b.drop_last())
    } else {
        b
    }
}

/// Cut trailing ASCII whitespace.
pub fn trim_end_bytes(line: &[u8]) -> (r: Vec<u8>)
    ensures
        r@ == trim_end_spec(line@),
{
    let mut end = line.len();
    proof {
        assert(line@.subrange(0, end as int) =~= line@);
    }
    while end > 0 && (line[end - 1] == 0x20 || line[end - 1] == 0x09 || line[end - 1] == 0x0d
        || line[end - 1] == 0x0a)
        invariant
            end <= line@.len(),
            trim_end_spec(line@) == trim_end_spec(line@.subrange(0, end as int)),
        decreases end,
    {
        proof {
            assert(line@.subrange(0, end as int).last() == line@[end - 1]);
            assert(line@.subrange(0, end as int).drop_last() =~= line@.subrange(0, end - 1));
        }
        end = end - 1;
    }
    let r = vstd::slice::slice_to_vec(vstd::slice::slice_subrange(line, 0, end));
    proof {
        let t = line@.subrange(0, end as int);
        if end > 0 {
            assert(!is_trim_byte(t.last()));
        }
        assert(trim_end_spec(t) == t);
    }
    r
}

/// The decimal value of ASCII digits, high digit first.
pub open spec fn digits_fold(b: Seq<u8>) -> int
    decreases b.len(),
{
    if b.len() == 0 {
        0
    } else {
        digits_fold(b.drop_last()) * 10 + (b.last() - 0x30)
    }
}

pub open spec fn all_digits(b: Seq<u8>) -> bool {
    forall|i: int| 0 <= i < b.len() ==> 0x30 <= #[trigger] b[i] <= 0x39
}

/// How many leading `0x30` bytes `b` carries.
pub open spec fn leading_zeros(b: Seq<u8>) -> int
    decreases b.len(),
{
    if b.len() > 0 && b.first() == 0x30 {
        1 + leading_zeros(b.drop_first())
    } else {
        0
    }
}

/// What parsing a signed decimal integer accepts and yields: an optional
/// sign, then at least one digit; after leading zeros at most 19 digits
/// may remain and the value must fit a signed 64-bit integer.
pub open spec fn parse_i64_spec(b: Seq<u8>) -> Option<int> {
    let negative = b.len() > 0 && b.first() == 0x2d;
    let signed = b.len() > 0 && (b.first() == 0x2d || b.first() == 0x2b);
    let mag = if signed {
        b.drop_first()
    } else {
        b
    };
    if mag.len() >= 1 && all_digits(mag) {
        let stripped = mag.skip(leading_zeros(mag));
        if stripped.len() > 19 {
            None
        } else {
            let v = if negative {
                -digits_fold(stripped)
            } else {
                digits_fold(stripped)
            };
            if -0x8000_0000_0000_0000 <= v < 0x8000_0000_0000_0000 {
                Some(v)
            } else {
                None
            }
        }
    } else {
        None
    }
}

/// Ten to the `n`.
pub open spec fn pow10(n: nat) -> int
    decreases n,
{
    if n == 0 {
        1
    } else {
        10 * pow10((n - 1) as nat)
    }
}

proof fn lemma_digits_fold_bound(b: Seq<u8>)
    requires
        all_digits(b),
    ensures
        0 <= digits_fold(b) < pow10(b.len()),
    decreases b.len(),
{
    if b.len() > 0 {
        assert(all_digits(b.drop_last())) by {
            assert(forall|i: int| 0 <= i < b.len() - 1 ==> 0x30 <= #[trigger] b[i] <= 0x39);
        };
        lemma_digits_fold_bound(b.drop_last());
    }
}

proof fn lemma_leading_zeros_bounds(b: Seq<u8>)
    ensures
        0 <= leading_zeros(b) <= b.len(),
    decreases b.len(),
{
    if b.len() > 0 && b.first() == 0x30 {
        lemma_leading_zeros_bounds(b.drop_first());
    }
}

/// Parse a signed decimal integer from bytes, exactly as
/// [`parse_i64_spec`] describes.
pub fn parse_i64_bytes(b: &[u8]) -> (r: Option<i64>)
    ensures
        match r {
            Some(v) => parse_i64_spec(b@) == Some(v as int),
            None => parse_i64_spec(b@) is None,
        },
{
    proof {
        assert(pow10(19) == 10_000_000_000_000_000_000) by {
            reveal_with_fuel(pow10, 21);
        };
    }
    let n = b.len();
    if n == 0 {
        return None;
    }
    let negative = b[0] == 0x2d;
    let signed = b[0] == 0x2d || b[0] == 0x2b;
    let mag_start: usize = if signed {
        1
    } else {
        0
    };
    let ghost magv = if signed {
        b@.drop_first()
    } else {
        b@
    };
    proof {
        assert(magv.len() == n - mag_start);
    }
    if n - mag_start == 0 {
        return None;
    }
    // every byte of the magnitude must be a digit
    let mut i = mag_start;
    while i < n
        invariant
            mag_start <= i <= n == b@.len(),
            signed == (b@.len() > 0 && (b@[0] == 0x2d || b@[0] == 0x2b)),
            negative == (b@.len() > 0 && b@[0] == 0x2d),
            n >= 1,
            mag_start == (if signed { 1int } else { 0int }),
            magv == (if signed { b@.drop_first() } else { b@ }),
            forall|k: int| mag_start <= k < i ==> 0x30 <= #[trigger] b@[k] <= 0x39,
        decreases n - i,
    {
        if b[i] < 0x30 || b[i] > 0x39 {
            proof {
                assert(magv[i - mag_start] == b@[i as int]);
                assert(!all_digits(magv));
            }
            return None;
        }
        i = i + 1;
    }
    proof {
        assert forall|k: int| 0 <= k < magv.len() implies 0x30 <= #[trigger] magv[k] <= 0x39 by {
            assert(magv[k] == b@[k + mag_start]);
        };
        assert(all_digits(magv));
    }
    // skip leading zeros
    let mut z = mag_start;
    proof {
        assert(magv.skip(0) =~= magv);
    }
    while z < n && b[z] == 0x30
        invariant
            mag_start <= z <= n,
            signed == (b@.len() > 0 && (b@[0] == 0x2d || b@[0] == 0x2b)),
            negative == (b@.len() > 0 && b@[0] == 0x2d),
            n >= 1,
            mag_start == (if signed { 1int } else { 0int }),
            magv == (if signed { b@.drop_first() } else { b@ }),
            n == b@.len(),
            leading_zeros(magv) == z - mag_start + leading_zeros(
                magv.skip(z - mag_start),
            ),
            forall|k: int| mag_start <= k < z ==> b@[k] == 0x30,
        decreases n - z,
    {
        proof {
            let rest = magv.skip(z - mag_start);
            assert(rest.first() == b@[z as int]);
            assert(rest.drop_first() =~= magv.skip(z - mag_start + 1));
        }
        z = z + 1;
    }
    proof {
        let rest = magv.skip(z - mag_start);
        if z < n {
            assert(rest.first() == b@[z as int]);
            assert(leading_zeros(rest) == 0);
        } else {
            assert(rest.len() == 0);
            assert(leading_zeros(rest) == 0);
        }
        assert(leading_zeros(magv) == z - mag_start);
        lemma_leading_zeros_bounds(magv);
    }
    let ghost stripped = magv.skip(leading_zeros(magv));
    if n - z > 19 {
        proof {
            assert(stripped.len() > 19);
        }
        return None;
    }
    let mut acc: u64 = 0;
    let mut j = z;
    proof {
        assert(stripped.take(0) =~= Seq::<u8>::empty());
    }
    while j < n
        invariant
            z <= j <= n == b@.len(),
            n - z <= 19,
            mag_start <= z,
            signed == (b@.len() > 0 && (b@[0] == 0x2d || b@[0] == 0x2b)),
            negative == (b@.len() > 0 && b@[0] == 0x2d),
            n >= 1,
            mag_start == (if signed { 1int } else { 0int }),
            magv == (if signed { b@.drop_first() } else { b@ }),
            stripped == magv.skip(z - mag_start),
            all_digits(magv),
            acc as int == digits_fold(stripped.take(j - z)),
            (acc as int) < pow10((j - z) as nat),
            pow10(19) == 10_000_000_000_000_000_000,
        decreases n - j,
    {
        proof {
            assert(stripped.take(j - z + 1).drop_last() =~= stripped.take(j - z));
            assert(stripped.take(j - z + 1).last() == stripped[j - z]);
            assert(stripped[j - z] == magv[j - mag_start]);
            assert(magv[j - mag_start] == b@[j as int]);
            assert(0x30 <= b@[j as int] <= 0x39);
            assert(pow10((j - z + 1) as nat) == 10 * pow10((j - z) as nat));
            lemma_pow10_le(( j - z + 1) as nat, 19);
        }
        let d = b[j] - 0x30;
        acc = acc * 10 + (d as u64);
        j = j + 1;
    }
    proof {
        assert(stripped.take(n - z) =~= stripped);
    }
    if negative {
        if acc > 0x8000_0000_0000_0000 {
            return None;
        }
        if acc == 0x8000_0000_0000_0000 {
            return Some(i64::MIN);
        }
        Some(-(acc as i64))
    } else {
        if acc > 0x7fff_ffff_ffff_ffff {
            return None;
        }
        Some(acc as i64)
    }
}

proof fn lemma_pow10_le(a: nat, c: nat)
    requires
        a <= c,
    ensures
        1 <= pow10(a) <= pow10(c),
    decreases c,
{
    if a == 0 {
        lemma_pow10_pos(c);
    } else if a < c {
        lemma_pow10_le(a, (c - 1) as nat);
    } else {
        lemma_pow10_pos(a);
    }
}

proof fn lemma_pow10_pos(a: nat)
    ensures
        pow10(a) >= 1,
    decreases a,
{
    if a > 0 {
        lemma_pow10_pos((a - 1) as nat);
    }
}

/// The mathematical value of a raw source field.
pub enum RawModel {
    Text(Seq<u8>),
    FloatBits(u64),
}

impl View for RawCell {
    type V = RawModel;

    open spec fn view(&self) -> RawModel {
        match self {
            RawCell::Text(b) => RawModel::Text(b@),
            RawCell::FloatBits(x) => RawModel::FloatBits(*x),
        }
    }
}

impl DeepView for RawCell {
    type V = RawModel;

    open spec fn deep_view(&self) -> RawModel {
        self.view()
    }
}

/// What one line becomes under column selection and the missing-value
/// policies: kept as its selected raw cells, omitted whole, or a build
/// failure.
pub enum RowOutcome {
    Keep(Seq<RawModel>),
    Omit,
    Fail,
}

/// Select one line's fields for the schema columns, applying each
/// column's policy where its field is absent or empty.
pub open spec fn row_outcome(fields: Seq<Seq<u8>>, cols: Seq<(usize, Column)>) -> RowOutcome
    decreases cols.len(),
{
    if cols.len() == 0 {
        RowOutcome::Keep(Seq::empty())
    } else {
        let w = cols.first().0 as int;
        let c = cols.first().1;
        let missing = w >= fields.len() || fields[w].len() == 0;
        if missing && c.missing_value_policy == MissingValuePolicy::OmitRow {
            RowOutcome::Omit
        } else if missing && c.missing_value_policy == MissingValuePolicy::Throw {
            RowOutcome::Fail
        } else {
            let cell = if missing {
                RawModel::Text(Seq::empty())
            } else {
                RawModel::Text(fields[w])
            };
            match row_outcome(fields, cols.drop_first()) {
                RowOutcome::Keep(cs) => RowOutcome::Keep(seq![cell] + cs),
                RowOutcome::Omit => RowOutcome::Omit,
                RowOutcome::Fail => RowOutcome::Fail,
            }
        }
    }
}

/// What reading all lines from `i` on yields: every kept row in order,
/// `None` as soon as one line fails.
pub open spec fn collect_rows(
    lines: Seq<Seq<u8>>,
    i: int,
    d: u8,
    cols: Seq<(usize, Column)>,
) -> Option<Seq<Seq<RawModel>>>
    decreases lines.len() - i,
{
    if i < 0 || i >= lines.len() {
        Some(Seq::empty())
    } else {
        match row_outcome(split_fields(trim_end_spec(lines[i]), d), cols) {
            RowOutcome::Fail => None,
            RowOutcome::Omit => collect_rows(lines, i + 1, d, cols),
            RowOutcome::Keep(r) => match collect_rows(lines, i + 1, d, cols) {
                Some(rest) => Some(seq![r] + rest),
                None => None,
            },
        }
    }
}

/// The first line at or after `cursor` that still holds something once
/// its trailing whitespace is cut (`lines.len()` if none).
pub open spec fn next_content_line(lines: Seq<Seq<u8>>, cursor: int) -> int
    decreases lines.len() - cursor,
{
    if cursor < 0 || cursor >= lines.len() {
        lines.len() as int
    } else if trim_end_spec(lines[cursor]).len() > 0 {
        cursor
    } else {
        next_content_line(lines, cursor + 1)
    }
}

/// The header's fields and the delimiter they imply: the first non-empty
/// line is cut on TAB; if that yields at least two fields TAB is the
/// delimiter, else the line is cut on COMMA, which must then yield at
/// least two fields.
pub open spec fn spec_header(lines: Seq<Seq<u8>>, cursor: int) -> Option<(Seq<Seq<u8>>, u8)> {
    let at = next_content_line(lines, cursor);
    if 0 <= at < lines.len() {
        let t = split_fields(trim_end_spec(lines[at]), 9u8);
        if t.len() > 1 {
            Some((t, 9u8))
        } else {
            let c = split_fields(trim_end_spec(lines[at]), 44u8);
            if c.len() > 1 {
                Some((c, 44u8))
            } else {
                None
            }
        }
    } else {
        None
    }
}

/// The first offset in `header` whose field is exactly `name`
/// (`header.len()` if none).
pub open spec fn first_index(header: Seq<Seq<u8>>, name: Seq<u8>) -> int
    decreases header.len(),
{
    if header.len() == 0 {
        0
    } else if header.first() == name {
        0
    } else {
        1 + first_index(header.drop_first(), name)
    }
}

proof fn lemma_first_index(header: Seq<Seq<u8>>, name: Seq<u8>)
    ensures
        0 <= first_index(header, name) <= header.len(),
        first_index(header, name) < header.len() ==> header[first_index(header, name)] == name,
        forall|k: int| 0 <= k < first_index(header, name) ==> header[k] != name,
    decreases header.len(),
{
    if header.len() > 0 && header.first() != name {
        lemma_first_index(header.drop_first(), name);
        assert forall|k: int| 0 <= k < first_index(header, name) implies header[k] != name by {
            if k > 0 {
                assert(header.drop_first()[k - 1] != name);
            }
        };
    }
}

/// Reads a tokenized source table, line by line, from an in-memory list
/// of its lines (without their newlines).
pub struct TabSeparatedFileReader {
    pub lines: Vec<Vec<u8>>,
    pub cursor: usize,
    pub split_on: u8,
}

impl TabSeparatedFileReader {
    /// A reader at the first line, splitting on TAB until the header
    /// says otherwise.
    pub fn new(lines: Vec<Vec<u8>>) -> (r: Self)
        ensures
            r.lines == lines,
            r.cursor == 0,
            r.split_on == 9u8,
    {
        TabSeparatedFileReader { lines, cursor: 0, split_on: 9 }
    }

    /// Read the next line and split it on the current delimiter;
    /// `None` when every line has been read.
    pub fn read_line_and_split(&mut self) -> (r: Option<Vec<Vec<u8>>>)
        ensures
            final(self).lines == old(self).lines,
            final(self).split_on == old(self).split_on,
            match r {
                Some(f) => {
                    &&& old(self).cursor < old(self).lines@.len()
                    &&& f.deep_view() == split_fields(
                        trim_end_spec(old(self).lines@[old(self).cursor as int]@),
                        old(self).split_on,
                    )
                    &&& final(self).cursor == old(self).cursor + 1
                },
                None => {
                    &&& old(self).cursor >= old(self).lines@.len()
                    &&& final(self).cursor == old(self).cursor
                },
            },
    {
        if self.cursor >= self.lines.len() {
            return None;
        }
        let trimmed = trim_end_bytes(self.lines[self.cursor].as_slice());
        let fields = split_line(trimmed.as_slice(), self.split_on);
        self.cursor = self.cursor + 1;
        Some(fields)
    }

    /// Skip `n` lines (stopping at the end of the input).
    pub fn skip_lines(&mut self, n: usize) -> (r: Result<(), DbError>)
        ensures
            r is Ok,
            final(self).lines == old(self).lines,
            final(self).split_on == old(self).split_on,
            final(self).cursor as int == if old(self).cursor as int >= old(self).lines@.len() {
                old(self).cursor as int
            } else if old(self).cursor + n <= old(self).lines@.len() {
                old(self).cursor + n
            } else {
                old(self).lines@.len() as int
            },
    {
        let len = self.lines.len();
        if self.cursor >= len {
            return Ok(());
        }
        if len - self.cursor < n {
            self.cursor = len;
        } else {
            self.cursor = self.cursor + n;
        }
        Ok(())
    }

    /// Read the header line and detect the delimiter: TAB if it cuts the
    /// line into at least two fields, else COMMA; fails when neither
    /// does or no line is left.
    pub fn read_header(&mut self) -> (r: Result<Vec<Vec<u8>>, DbError>)
        ensures
            final(self).lines == old(self).lines,
            match r {
                Ok(h) => {
                    &&& spec_header(old(self).lines.deep_view(), old(self).cursor as int)
                        == Some((h.deep_view(), final(self).split_on))
                    &&& final(self).cursor as int == next_content_line(
                        old(self).lines.deep_view(),
                        old(self).cursor as int,
                    ) + 1
                },
                Err(e) => spec_header(old(self).lines.deep_view(), old(self).cursor as int)
                    is None,
            },
    {
        let ghost lines_m = old(self).lines.deep_view();
        // the delimiter is read off the first non-empty line
        while self.cursor < self.lines.len() && trim_end_bytes(
            self.lines[self.cursor].as_slice(),
        ).len() == 0
            invariant
                self.lines == old(self).lines,
                self.split_on == old(self).split_on,
                lines_m == old(self).lines.deep_view(),
                old(self).cursor <= self.cursor,
                next_content_line(lines_m, old(self).cursor as int) == next_content_line(
                    lines_m,
                    self.cursor as int,
                ),
            decreases self.lines@.len() - self.cursor,
        {
            proof {
                assert(lines_m[self.cursor as int] == self.lines@[self.cursor as int]@);
            }
            self.cursor = self.cursor + 1;
        }
        if self.cursor >= self.lines.len() {
            return Err(DbError::ParseError(String::from_str("empty file")));
        }
        proof {
            assert(lines_m[self.cursor as int] == self.lines@[self.cursor as int]@);
            assert(next_content_line(lines_m, self.cursor as int) == self.cursor as int);
        }
        let trimmed = trim_end_bytes(self.lines[self.cursor].as_slice());
        let tabs = split_line(trimmed.as_slice(), 9);
        if tabs.len() > 1 {
            self.split_on = 9;
            self.cursor = self.cursor + 1;
            return Ok(tabs);
        }
        let commas = split_line(trimmed.as_slice(), 44);
        if commas.len() > 1 {
            self.split_on = 44;
            self.cursor = self.cursor + 1;
            return Ok(commas);
        }
        Err(DbError::ParseError(String::from_str("unable to determine the delimiter")))
    }

    /// Resolve each schema column name to the offset of the first header
    /// field that spells it; fails when a name is absent.
    pub fn find_column_indices(&mut self, column_names: &Vec<String>) -> (r: Result<
        Vec<(String, usize)>,
        DbError,
    >)
        ensures
            final(self).lines == old(self).lines,
            match r {
                Ok(v) => {
                    &&& spec_header(old(self).lines.deep_view(), old(self).cursor as int)
                        matches Some(h)
                    &&& v@.len() == column_names@.len()
                    &&& forall|i: int|
                        0 <= i < v@.len() ==> (#[trigger] v@[i]).0@ == column_names@[i]@ && v@[i].1
                            as int == first_index(
                            spec_header(
                                old(self).lines.deep_view(),
                                old(self).cursor as int,
                            )->Some_0.0,
                            encode_utf8(column_names@[i]@),
                        ) && v@[i].1 < spec_header(
                            old(self).lines.deep_view(),
                            old(self).cursor as int,
                        )->Some_0.0.len()
                },
                Err(e) => spec_header(old(self).lines.deep_view(), old(self).cursor as int)
                    is None || exists|i: int|
                    0 <= i < column_names@.len() && first_index(
                        spec_header(
                            old(self).lines.deep_view(),
                            old(self).cursor as int,
                        )->Some_0.0,
                        encode_utf8((#[trigger] column_names@[i])@),
                    ) >= spec_header(
                        old(self).lines.deep_view(),
                        old(self).cursor as int,
                    )->Some_0.0.len(),
            },
    {
        let ghost hdr_spec = spec_header(old(self).lines.deep_view(), old(self).cursor as int);
        let header = match self.read_header() {
            Ok(h) => h,
            Err(e) => {
                return Err(e);
            },
        };
        let mut out: Vec<(String, usize)> = Vec::new();
        let mut i: usize = 0;
        while i < column_names.len()
            invariant
                self.lines == old(self).lines,
                i <= column_names@.len(),
                hdr_spec == Some((header.deep_view(), self.split_on)),
                hdr_spec == spec_header(old(self).lines.deep_view(), old(self).cursor as int),
                out@.len() == i,
                forall|k: int|
                    0 <= k < i ==> (#[trigger] out@[k]).0@ == column_names@[k]@ && out@[k].1
                        as int == first_index(
                        header.deep_view(),
                        encode_utf8(column_names@[k]@),
                    ) && out@[k].1 < header.deep_view().len(),
            decreases column_names@.len() - i,
        {
            let name_bytes = column_names[i].as_str().as_bytes_vec();
            let idx = Self::find_field(&header, &name_bytes);
            proof {
                lemma_first_index(header.deep_view(), name_bytes@);
            }
            if idx >= header.len() {
                return Err(
                    DbError::ParseError(
                        String::from_str("column not found in header: ").concat(
                            column_names[i].as_str(),
                        ),
                    ),
                );
            }
            let name_copy = column_names[i].clone();
            proof {
                assert(name_copy@ == column_names@[i as int]@);
            }
            out.push((name_copy, idx));
            i = i + 1;
        }
        Ok(out)
    }

    /// The first header field equal to `name`, as an offset
    /// (`header.len()` if none).
    fn find_field(header: &Vec<Vec<u8>>, name: &Vec<u8>) -> (r: usize)
        ensures
            r as int == first_index(header.deep_view(), name@),
    {
        let n = header.len();
        let mut i: usize = 0;
        proof {
            assert(header.deep_view().skip(0) =~= header.deep_view());
        }
        while i < n
            invariant
                i <= n == header.deep_view().len(),
                n == header@.len(),
                first_index(header.deep_view(), name@) == i + first_index(
                    header.deep_view().skip(i as int),
                    name@,
                ),
            decreases n - i,
        {
            proof {
                assert(header.deep_view().skip(i as int).first() == header@[i as int].deep_view());
                assert(header.deep_view().skip(i as int).drop_first() =~= header.deep_view().skip(
                    i + 1,
                ));
                assert(header@[i as int].deep_view() =~= header@[i as int]@);
            }
            if Self::bytes_equal(&header[i], name) {
                proof {
                    assert(header.deep_view().skip(i as int).first() == name@);
                    assert(first_index(header.deep_view().skip(i as int), name@) == 0);
                }
                return i;
            }
            proof {
                assert(header.deep_view().skip(i as int).first() != name@);
            }
            i = i + 1;
        }
        proof {
            assert(header.deep_view().skip(n as int).len() == 0);
        }
        n
    }

    /// Byte-for-byte equality of two fields.
    fn bytes_equal(a: &Vec<u8>, b: &Vec<u8>) -> (r: bool)
        ensures
            r == (a@ == b@),
    {
        if a.len() != b.len() {
            return false;
        }
        let mut i: usize = 0;
        while i < a.len()
            invariant
                i <= a@.len() == b@.len(),
                forall|k: int| 0 <= k < i ==> a@[k] == b@[k],
            decreases a@.len() - i,
        {
            if a[i] != b[i] {
                return false;
            }
            i = i + 1;
        }
        proof {
            assert(a@ =~= b@);
        }
        true
    }

    /// Read every remaining line, select the schema columns and apply
    /// the missing-value policies; yields the kept rows, in order, as
    /// raw cells, failing as soon as a required field is absent or
    /// empty.
    pub fn read_all(&mut self, columns: &Vec<(usize, Column)>) -> (r: Result<
        Vec<Vec<RawCell>>,
        DbError,
    >)
        ensures
            final(self).lines == old(self).lines,
            final(self).split_on == old(self).split_on,
            match r {
                Ok(rows) => collect_rows(
                    old(self).lines.deep_view(),
                    old(self).cursor as int,
                    old(self).split_on,
                    columns@,
                ) == Some(rows.deep_view()),
                Err(e) => collect_rows(
                    old(self).lines.deep_view(),
                    old(self).cursor as int,
                    old(self).split_on,
                    columns@,
                ) is None,
            },
    {
        let ghost lines_m = old(self).lines.deep_view();
        let ghost d = old(self).split_on;
        let mut rows: Vec<Vec<RawCell>> = Vec::new();
        let ghost mut acc: Seq<Seq<RawModel>> = Seq::empty();
        proof {
            match collect_rows(lines_m, old(self).cursor as int, d, columns@) {
                Some(rest) => {
                    assert(acc + rest =~= rest);
                },
                None => {},
            }
        }
        while self.cursor < self.lines.len()
            invariant
                self.lines == old(self).lines,
                self.split_on == old(self).split_on,
                lines_m == old(self).lines.deep_view(),
                d == old(self).split_on,
                rows.deep_view() == acc,
                match collect_rows(lines_m, self.cursor as int, d, columns@) {
                    Some(rest) => collect_rows(
                        lines_m,
                        old(self).cursor as int,
                        d,
                        columns@,
                    ) == Some(acc + rest),
                    None => collect_rows(lines_m, old(self).cursor as int, d, columns@) is None,
                },
            decreases self.lines@.len() - self.cursor,
        {
            let ghost cur = self.cursor as int;
            let fields = match self.read_line_and_split() {
                Some(f) => f,
                None => {
                    proof {
                        assert(false);
                    }
                    return Err(DbError::ParseError(String::from_str("no line left to read")));
                },
            };
            proof {
                assert(lines_m[cur] == old(self).lines@[cur]@);
            }
            match Self::select_row(&fields, columns, self.cursor) {
                Ok(Some(row)) => {
                    let ghost rm = row.deep_view();
                    rows.push(row);
                    proof {
                        assert(rows.deep_view() =~~= acc.push(rm));
                        let old_acc = acc;
                        acc = acc.push(rm);
                        match collect_rows(lines_m, cur + 1, d, columns@) {
                            Some(rest) => {
                                assert(collect_rows(lines_m, cur, d, columns@) == Some(
                                    seq![rm] + rest,
                                ));
                                assert(old_acc + (seq![rm] + rest) =~~= acc + rest);
                            },
                            None => {},
                        }
                    }
                },
                Ok(None) => {
                },
                Err(e) => {
                    return Err(e);
                },
            }
        }
        proof {
            assert(collect_rows(lines_m, self.cursor as int, d, columns@) == Some(
                Seq::<Seq<RawModel>>::empty(),
            ));
            assert(acc + Seq::<Seq<RawModel>>::empty() =~~= acc);
        }
        Ok(rows)
    }

    /// Select one line's cells per schema column, applying the policies;
    /// `Ok(None)` omits the row, an error aborts the read.
    fn select_row(fields: &Vec<Vec<u8>>, columns: &Vec<(usize, Column)>, line: usize) -> (r: Result<
        Option<Vec<RawCell>>,
        DbError,
    >)
        ensures
            match r {
                Ok(Some(row)) => row_outcome(fields.deep_view(), columns@) == RowOutcome::Keep(
                    row.deep_view(),
                ),
                Ok(None) => row_outcome(fields.deep_view(), columns@) == RowOutcome::Omit,
                Err(e) => row_outcome(fields.deep_view(), columns@) == RowOutcome::Fail,
            },
    {
        let mut row: Vec<RawCell> = Vec::new();
        let mut i: usize = 0;
        let ghost mut done: Seq<RawModel> = Seq::empty();
        proof {
            assert(columns@.skip(0) =~= columns@);
            assert(row.deep_view() =~~= done);
            match row_outcome(fields.deep_view(), columns@) {
                RowOutcome::Keep(cs) => {
                    assert(done + cs =~~= cs);
                },
                _ => {},
            }
        }
        while i < columns.len()
            invariant
                i <= columns@.len(),
                row.deep_view() == done,
                match row_outcome(fields.deep_view(), columns@.skip(i as int)) {
                    RowOutcome::Keep(cs) => row_outcome(fields.deep_view(), columns@)
                        == RowOutcome::Keep(done + cs),
                    RowOutcome::Omit => row_outcome(fields.deep_view(), columns@)
                        == RowOutcome::Omit,
                    RowOutcome::Fail => row_outcome(fields.deep_view(), columns@)
                        == RowOutcome::Fail,
                },
            decreases columns@.len() - i,
        {
            proof {
                assert(columns@.skip(i as int).first() == columns@[i as int]);
                assert(columns@.skip(i as int).drop_first() =~= columns@.skip(i + 1));
            }
            let ghost old_done = done;
            let ghost cm: RawModel;
            let wide = columns[i].0;
            let missing = wide >= fields.len() || fields[wide].len() == 0;
            proof {
                if (wide as int) < fields.deep_view().len() {
                    assert(fields.deep_view()[wide as int] =~= fields@[wide as int]@);
                }
            }
            if missing {
                match columns[i].1.missing_value_policy {
                    MissingValuePolicy::OmitRow => {
                        return Ok(None);
                    },
                    MissingValuePolicy::Throw => {
                        return Err(
                            DbError::ParseError(
                                String::from_str("missing value in column ").concat(
                                    crate::u64_to_string(wide as u64).as_str(),
                                ).concat(" in line ").concat(
                                    crate::u64_to_string(line as u64).as_str(),
                                ),
                            ),
                        );
                    },
                    MissingValuePolicy::ReplaceWithEmptyString => {
                        row.push(RawCell::Text(Vec::new()));
                        proof {
                            cm = RawModel::Text(Seq::empty());
                            done = done.push(cm);
                            assert(row.deep_view() =~~= done);
                        }
                    },
                }
            } else {
                let cell = RawCell::Text(Self::copy_bytes(&fields[wide]));
                row.push(cell);
                proof {
                    cm = RawModel::Text(fields.deep_view()[wide as int]);
                    done = done.push(cm);
                    assert(row.deep_view() =~~= done);
                }
            }
            i = i + 1;
            proof {
                assert(done =~~= old_done.push(cm));
                match row_outcome(fields.deep_view(), columns@.skip(i as int)) {
                    RowOutcome::Keep(cs) => {
                        assert(row_outcome(fields.deep_view(), columns@.skip(i - 1))
                            == RowOutcome::Keep(seq![cm] + cs));
                        assert(old_done + (seq![cm] + cs) =~~= done + cs);
                    },
                    _ => {},
                }
            }
        }
        proof {
            assert(columns@.skip(columns@.len() as int).len() == 0);
            assert(done + Seq::<RawModel>::empty() =~~= done);
        }
        Ok(Some(row))
    }

    /// Copy one field's bytes.
    fn copy_bytes(b: &Vec<u8>) -> (r: Vec<u8>)
        ensures
            r@ == b@,
    {
        vstd::slice::slice_to_vec(b.as_slice())
    }
}

/// What parsing one raw cell to its declared type yields: an integer
/// from its decimal digits, a float from bits already converted, a
/// string from UTF-8 bytes; anything else is refused.
pub open spec fn parse_raw_cell(c: RawModel, t: ColumnType) -> Option<CellModel> {
    match (c, t) {
        (RawModel::Text(b), ColumnType::Integer) => match parse_i64_spec(b) {
            Some(v) => Some(CellModel::Int(v as i64)),
            None => None,
        },
        (RawModel::FloatBits(x), ColumnType::Float) => Some(CellModel::Fl(x)),
        (RawModel::Text(b), ColumnType::VolatileString) => if valid_utf8(b) {
            Some(CellModel::Str(decode_utf8(b)))
        } else {
            None
        },
        _ => None,
    }
}

/// Parse every cell of one raw row against the schema's column types.
pub open spec fn parse_raw_row(cells: Seq<RawModel>, cols: Seq<Column>) -> Option<Seq<CellModel>>
    decreases cols.len(),
{
    if cells.len() != cols.len() {
        None
    } else if cols.len() == 0 {
        Some(Seq::empty())
    } else {
        match parse_raw_cell(cells.first(), cols.first().type_) {
            Some(c) => match parse_raw_row(cells.drop_first(), cols.drop_first()) {
                Some(cs) => Some(seq![c] + cs),
                None => None,
            },
            None => None,
        }
    }
}

/// Parse one raw cell to its declared type, exactly as
/// [`parse_raw_cell`] describes.
pub fn get_cell_value(type_: ColumnType, cell: &RawCell) -> (r: Result<CellValue, DbError>)
    ensures
        match r {
            Ok(v) => parse_raw_cell(cell@, type_) == Some(v@),
            Err(e) => parse_raw_cell(cell@, type_) is None && e is ParseError,
        },
{
    match (cell, type_) {
        (RawCell::Text(b), ColumnType::Integer) => {
            match parse_i64_bytes(b.as_slice()) {
                Some(v) => Ok(CellValue::Integer(v)),
                None => Err(
                    DbError::ParseError(String::from_str("failed to parse value as integer")),
                ),
            }
        },
        (RawCell::FloatBits(x), ColumnType::Float) => Ok(CellValue::Float(*x)),
        (RawCell::Text(b), ColumnType::VolatileString) => {
            match string_from_utf8(copy_field_bytes(b)) {
                Some(st) => Ok(CellValue::Text(st)),
                None => Err(
                    DbError::ParseError(String::from_str("string cell is not valid UTF-8")),
                ),
            }
        },
        _ => Err(DbError::ParseError(String::from_str("cell does not fit its declared type"))),
    }
}

/// Copy one field's bytes.
fn copy_field_bytes(b: &Vec<u8>) -> (r: Vec<u8>)
    ensures
        r@ == b@,
{
    vstd::slice::slice_to_vec(b.as_slice())
}

/// Parse every raw row against the schema; fails on the first cell that
/// does not parse to its declared type.
pub fn parse_rows(raw: &Vec<Vec<RawCell>>, columns: &Vec<Column>) -> (r: Result<Vec<Row>, DbError>)
    ensures
        match r {
            Ok(rows) => {
                &&& rows@.len() == raw@.len()
                &&& forall|i: int|
                    0 <= i < raw@.len() ==> parse_raw_row(
                        (#[trigger] raw@[i]).deep_view(),
                        columns@,
                    ) == Some(rows@[i].deep_view())
            },
            Err(e) => exists|i: int|
                0 <= i < raw@.len() && parse_raw_row((#[trigger] raw@[i]).deep_view(), columns@)
                    is None,
        },
{
    let mut rows: Vec<Row> = Vec::new();
    let mut i: usize = 0;
    while i < raw.len()
        invariant
            i <= raw@.len(),
            rows@.len() == i,
            forall|k: int|
                0 <= k < i ==> parse_raw_row((#[trigger] raw@[k]).deep_view(), columns@) == Some(
                    rows@[k].deep_view(),
                ),
        decreases raw@.len() - i,
    {
        match parse_one_row(&raw[i], columns) {
            Ok(row) => {
                rows.push(row);
            },
            Err(e) => {
                return Err(e);
            },
        }
        i = i + 1;
    }
    Ok(rows)
}

/// Parse the cells of one raw row.
fn parse_one_row(cells: &Vec<RawCell>, columns: &Vec<Column>) -> (r: Result<Row, DbError>)
    ensures
        match r {
            Ok(row) => parse_raw_row(cells.deep_view(), columns@) == Some(row.deep_view()),
            Err(e) => parse_raw_row(cells.deep_view(), columns@) is None,
        },
{
    if cells.len() != columns.len() {
        return Err(
            DbError::ParseError(String::from_str("row has a different number of cells than the schema")),
        );
    }
    let mut row: Vec<CellValue> = Vec::new();
    let mut i: usize = 0;
    let ghost mut done: Seq<CellModel> = Seq::empty();
    proof {
        assert(cells.deep_view().skip(0) =~= cells.deep_view());
        assert(columns@.skip(0) =~= columns@);
        assert(row.deep_view() =~~= done);
        match parse_raw_row(cells.deep_view(), columns@) {
            Some(cs) => {
                assert(done + cs =~~= cs);
            },
            None => {},
        }
    }
    while i < columns.len()
        invariant
            i <= columns@.len() == cells.deep_view().len(),
            cells.deep_view().len() == cells@.len(),
            row.deep_view() == done,
            match parse_raw_row(cells.deep_view().skip(i as int), columns@.skip(i as int)) {
                Some(cs) => parse_raw_row(cells.deep_view(), columns@) == Some(done + cs),
                None => parse_raw_row(cells.deep_view(), columns@) is None,
            },
        decreases columns@.len() - i,
    {
        proof {
            assert(cells.deep_view().skip(i as int).first() == cells@[i as int].deep_view());
            assert(cells.deep_view().skip(i as int).drop_first() =~= cells.deep_view().skip(i + 1));
            assert(columns@.skip(i as int).first() == columns@[i as int]);
            assert(columns@.skip(i as int).drop_first() =~= columns@.skip(i + 1));
        }
        let ghost old_done = done;
        let v = match get_cell_value(columns[i].type_, &cells[i]) {
            Ok(v) => v,
            Err(e) => {
                return Err(e);
            },
        };
        let ghost cm = v@;
        row.push(v);
        proof {
            done = done.push(cm);
            assert(row.deep_view() =~~= done);
        }
        i = i + 1;
        proof {
            match parse_raw_row(cells.deep_view().skip(i as int), columns@.skip(i as int)) {
                Some(cs) => {
                    assert(parse_raw_row(
                        cells.deep_view().skip(i - 1),
                        columns@.skip(i - 1),
                    ) == Some(seq![cm] + cs));
                    assert(old_done + (seq![cm] + cs) =~~= done + cs);
                },
                None => {},
            }
        }
    }
    proof {
        assert(columns@.skip(columns@.len() as int).len() == 0);
        assert(cells.deep_view().skip(columns@.len() as int).len() == 0);
        assert(done + Seq::<CellModel>::empty() =~~= done);
    }
    Ok(row)
}

impl TabSeparatedFileReader {
    /// Sort typed rows ascending by the integer value of their leading
    /// position column; the result is a permutation of the input.
    pub fn convert_read_data(columns: &Vec<Column>, rows: Vec<Row>) -> (r: Result<Vec<Row>, DbError>)
        requires
            columns@.len() >= 1,
        ensures
            match r {
                Ok(sorted) => {
                    &&& (forall|i: int|
                        0 <= i < rows.deep_view().len() ==> (#[trigger] rows.deep_view()[i]).len()
                            >= 1 && rows.deep_view()[i][0] is Int)
                    &&& rows_sorted(sorted.deep_view())
                    &&& sorted.deep_view().to_multiset() == rows.deep_view().to_multiset()
                },
                Err(e) => !(forall|i: int|
                    0 <= i < rows.deep_view().len() ==> (#[trigger] rows.deep_view()[i]).len() >= 1
                        && rows.deep_view()[i][0] is Int),
            },
    {
        broadcast use vstd::seq_lib::group_seq_properties;

        let ghost orig = rows.deep_view();
        let mut input = rows;
        // every leading cell must be an integer
        let mut c: usize = 0;
        while c < input.len()
            invariant
                c <= input@.len(),
                input.deep_view() == orig,
                orig == rows.deep_view(),
                forall|i: int|
                    0 <= i < c ==> (#[trigger] orig[i]).len() >= 1 && orig[i][0] is Int,
            decreases input@.len() - c,
        {
            proof {
                assert(orig[c as int] == input@[c as int].deep_view());
            }
            if input[c].len() == 0 {
                proof {
                    assert(orig[c as int].len() == 0);
                    assert(!(orig[c as int].len() >= 1 && orig[c as int][0] is Int));
                }
                return Err(
                    DbError::ParseError(String::from_str("a row has no leading position cell")),
                );
            }
            match &input[c][0] {
                CellValue::Integer(_) => {},
                _ => {
                    proof {
                        assert(!(orig[c as int][0] is Int));
                    }
                    return Err(
                        DbError::ParseError(
                            String::from_str("values in the leading column must be integers"),
                        ),
                    );
                },
            }
            c = c + 1;
        }
        // selection sort: repeatedly move the least remaining position
        let mut out: Vec<Row> = Vec::new();
        while input.len() > 0
            invariant
                out.deep_view().to_multiset().add(input.deep_view().to_multiset())
                    == orig.to_multiset(),
                rows_sorted(out.deep_view()),
                forall|i: int|
                    0 <= i < input.deep_view().len() ==> (#[trigger] input.deep_view()[i]).len()
                        >= 1 && input.deep_view()[i][0] is Int,
                forall|i: int|
                    0 <= i < out.deep_view().len() ==> (#[trigger] out.deep_view()[i]).len() >= 1
                        && out.deep_view()[i][0] is Int,
                forall|i: int, j: int|
                    0 <= i < out.deep_view().len() && 0 <= j < input.deep_view().len()
                        ==> row_pos(#[trigger] out.deep_view()[i]) <= row_pos(
                        #[trigger] input.deep_view()[j],
                    ),
            decreases input@.len(),
        {
            let mut best: usize = 0;
            let mut k: usize = 1;
            while k < input.len()
                invariant
                    best < k <= input@.len() || (k <= input@.len() && best == 0),
                    best < input@.len(),
                    input@.len() > 0,
                    forall|i: int|
                        0 <= i < input.deep_view().len() ==> (
                        #[trigger] input.deep_view()[i]).len() >= 1 && input.deep_view()[i][0]
                            is Int,
                    forall|i: int|
                        0 <= i < k ==> row_pos(input.deep_view()[best as int]) <= row_pos(
                            #[trigger] input.deep_view()[i],
                        ),
                decreases input@.len() - k,
            {
                if Self::leading_position(&input, k) < Self::leading_position(&input, best) {
                    best = k;
                }
                k = k + 1;
            }
            let ghost before = input.deep_view();
            let picked = input.remove(best);
            let ghost pm = picked.deep_view();
            proof {
                assert(pm == before[best as int]);
                assert(input.deep_view() =~~= before.remove(best as int));
                before.to_multiset_ensures();
                assert(before.remove(best as int).to_multiset() =~= before.to_multiset().remove(
                    pm,
                ));
            }
            let ghost out_before = out.deep_view();
            out.push(picked);
            proof {
                assert(out.deep_view() =~~= out_before.push(pm));
                out_before.to_multiset_ensures();
                assert(out_before.push(pm).to_multiset() =~= out_before.to_multiset().insert(pm));
                assert(out.deep_view().to_multiset().add(input.deep_view().to_multiset())
                    =~= orig.to_multiset());
                assert(rows_sorted(out.deep_view())) by {
                    assert(forall|i: int, j: int|
                        0 <= i <= j < out.deep_view().len() ==> row_pos(
                            #[trigger] out.deep_view()[i],
                        ) <= row_pos(#[trigger] out.deep_view()[j]));
                };
            }
        }
        proof {
            assert(input.deep_view().to_multiset() =~= vstd::multiset::Multiset::<Seq<CellModel>>::empty()) by {
                input.deep_view().to_multiset_ensures();
            };
            assert(out.deep_view().to_multiset() =~= orig.to_multiset());
        }
        Ok(out)
    }

    /// The leading position of row `i` (its first cell, an integer).
    fn leading_position(rows: &Vec<Row>, i: usize) -> (r: i64)
        requires
            i < rows@.len(),
            rows.deep_view()[i as int].len() >= 1,
            rows.deep_view()[i as int][0] is Int,
        ensures
            r as int == row_pos(rows.deep_view()[i as int]),
    {
        proof {
            assert(rows.deep_view()[i as int] == rows@[i as int].deep_view());
        }
        match &rows[i][0] {
            CellValue::Integer(v) => *v,
            _ => {
                proof {
                    assert(false);
                }
                0
            },
        }
    }

    /// Classify sampled columns from what their fields admitted: all
    /// integers, else all floats, else a hashtable string when distinct
    /// values stayed under the threshold, else a volatile string; fails
    /// when fewer lines than the requested sample size were read.
    pub fn guess_column_types_but_better(
        possibly_integer: &Vec<bool>,
        possibly_float: &Vec<bool>,
        possibly_hashtable: &Vec<bool>,
        rows_read: usize,
        min_sample_size: usize,
    ) -> (r: Result<Vec<ColumnType>, NotEnoughLinesError>)
        requires
            possibly_integer@.len() == possibly_float@.len(),
            possibly_integer@.len() == possibly_hashtable@.len(),
        ensures
            match r {
                Ok(v) => {
                    &&& rows_read >= min_sample_size
                    &&& v@.len() == possibly_integer@.len()
                    &&& forall|i: int|
                        0 <= i < v@.len() ==> #[trigger] v@[i] == classify_column(
                            possibly_integer@[i],
                            possibly_float@[i],
                            possibly_hashtable@[i],
                        )
                },
                Err(e) => rows_read < min_sample_size,
            },
    {
        if rows_read < min_sample_size {
            return Err(NotEnoughLinesError);
        }
        let mut out: Vec<ColumnType> = Vec::new();
        let mut i: usize = 0;
        while i < possibly_integer.len()
            invariant
                i <= possibly_integer@.len(),
                possibly_integer@.len() == possibly_float@.len(),
                possibly_integer@.len() == possibly_hashtable@.len(),
                out@.len() == i,
                forall|k: int|
                    0 <= k < i ==> #[trigger] out@[k] == classify_column(
                        possibly_integer@[k],
                        possibly_float@[k],
                        possibly_hashtable@[k],
                    ),
            decreases possibly_integer@.len() - i,
        {
            let t = if possibly_integer[i] {
                ColumnType::Integer
            } else if possibly_float[i] {
                ColumnType::Float
            } else if possibly_hashtable[i] {
                ColumnType::HashtableString
            } else {
                ColumnType::VolatileString
            };
            out.push(t);
            i = i + 1;
        }
        Ok(out)
    }
}

/// The classification rule for one sampled column.
pub open spec fn classify_column(int_ok: bool, float_ok: bool, hashtable_ok: bool) -> ColumnType {
    if int_ok {
        ColumnType::Integer
    } else if float_ok {
        ColumnType::Float
    } else if hashtable_ok {
        ColumnType::HashtableString
    } else {
        ColumnType::VolatileString
    }
}

} // verus!



