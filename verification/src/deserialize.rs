//! Fixed-width big-endian primitives and length-prefixed strings, with skip
//! counterparts, all over an in-memory byte buffer and a byte position.
use vstd::prelude::*;
use vstd::arithmetic::power2::*;
use vstd::arithmetic::div_mod::*;
use vstd::string::StringExecFns;
use vstd::slice::slice_subrange;
use vstd::slice::slice_to_vec;
use vstd::utf8::valid_utf8;
use vstd::utf8::decode_utf8;
use crate::DbError;

verus! {

/// The integer read big-endian from the byte string `b`.
pub open spec fn be_load(b: Seq<u8>) -> int
    decreases b.len(),
{
    if b.len() == 0 {
        0
    } else {
        be_load(b.drop_last()) * 256 + b.last()
    }
}

/// The big-endian byte string of length `n` for the integer `x`
/// (high byte first; `x` is truncated to `n` bytes).
pub open spec fn be_bytes(x: int, n: nat) -> Seq<u8>
    decreases n,
{
    if n == 0 {
        Seq::empty()
    } else {
        be_bytes(x / 256, (n - 1) as nat) + seq![(x % 256) as u8]
    }
}

pub proof fn lemma_be_bytes_len(x: int, n: nat)
    ensures
        be_bytes(x, n).len() == n,
    decreases n,
{
    if n > 0 {
        lemma_be_bytes_len(x / 256, (n - 1) as nat);
    }
}

pub proof fn lemma_be_load_bound(b: Seq<u8>)
    ensures
        0 <= be_load(b) < pow2(8 * b.len()),
    decreases b.len(),
{
    if b.len() == 0 {
        assert(pow2(0) == 1) by { lemma2_to64(); };
    } else {
        lemma_be_load_bound(b.drop_last());
        lemma_pow2_adds(8 * (b.len() - 1) as nat, 8);
        assert(pow2(8) == 256) by { lemma2_to64(); };
    }
}

/// Round trip: loading the big-endian bytes of `x` gives back `x`.
pub proof fn lemma_be_load_be_bytes(x: int, n: nat)
    requires
        0 <= x < pow2(8 * n),
    ensures
        be_load(be_bytes(x, n)) == x,
    decreases n,
{
    if n == 0 {
        assert(pow2(0) == 1) by { lemma2_to64(); };
    } else {
        let rest = be_bytes(x / 256, (n - 1) as nat);
        lemma_be_bytes_len(x / 256, (n - 1) as nat);
        assert(be_bytes(x, n).drop_last() =~= rest);
        assert(be_bytes(x, n).last() == (x % 256) as u8);
        lemma_pow2_adds(8 * (n - 1) as nat, 8);
        assert(pow2(8) == 256) by { lemma2_to64(); };
        assert(x < pow2(8 * (n - 1) as nat) * 256);
        assert(x / 256 < pow2(8 * (n - 1) as nat)) by {
            vstd::arithmetic::div_mod::lemma_multiply_divide_lt(
                x,
                256,
                pow2(8 * (n - 1) as nat) as int,
            );
        };
        lemma_be_load_be_bytes(x / 256, (n - 1) as nat);
        assert((x / 256) * 256 + x % 256 == x) by {
            lemma_fundamental_div_mod(x, 256);
        };
    }
}

/// Read the byte at `pos`; succeeds exactly when `pos` is in bounds.
pub fn read_u8(b: &[u8], pos: usize) -> (r: Result<(u8, usize), DbError>)
    ensures
        match r {
            Ok((v, next)) => pos < b@.len() && v == b@[pos as int] && next == pos + 1,
            Err(e) => pos >= b@.len() && e is InvalidFormat,
        },
{
    if pos < b.len() {
        Ok((b[pos], pos + 1))
    } else {
        Err(DbError::InvalidFormat(msg_truncated()))
    }
}

/// Read 8 big-endian bytes at `pos` as an unsigned value; succeeds exactly
/// when all 8 bytes are in bounds.
pub fn read_u64(b: &[u8], pos: usize) -> (r: Result<(u64, usize), DbError>)
    ensures
        match r {
            Ok((v, next)) => {
                &&& pos + 8 <= b@.len()
                &&& v as int == be_load(b@.subrange(pos as int, pos + 8))
                &&& next == pos + 8
            },
            Err(e) => pos + 8 > b@.len() && e is InvalidFormat,
        },
{
    proof {
        lemma2_to64();
        lemma2_to64_rest();
    }
    if b.len() < 8 || pos > b.len() - 8 {
        return Err(DbError::InvalidFormat(msg_truncated()));
    }
    let mut x: u64 = 0;
    let mut i: usize = 0;
    while i < 8
        invariant
            i <= 8,
            pos + 8 <= b@.len() <= usize::MAX,
            x as int == be_load(b@.subrange(pos as int, pos + i)),
            (x as nat) < pow2(8 * i as nat),
        decreases 8 - i,
    {
        proof {
            lemma2_to64();
            lemma_pow2_adds(8 * i as nat, 8);
            if 8 * i + 8 < 64 {
                lemma_pow2_strictly_increases((8 * i + 8) as nat, 64);
            }
            lemma2_to64_rest();
        }
        let ghost old_x = x as int;
        x = x * 256 + (b[pos + i] as u64);
        i = i + 1;
        proof {
            let s = b@.subrange(pos as int, pos + i);
            assert(s.drop_last() =~= b@.subrange(pos as int, pos + i - 1));
            assert(s.last() == b@[pos + i - 1]);
        }
    }
    Ok((x, pos + 8))
}

/// The unsigned value `u` reinterpreted as a two's-complement signed value.
pub open spec fn as_signed_64(u: int) -> int {
    if u >= 0x8000_0000_0000_0000 {
        u - 0x1_0000_0000_0000_0000
    } else {
        u
    }
}

/// Read 8 big-endian bytes at `pos` as a two's-complement signed value.
pub fn read_i64(b: &[u8], pos: usize) -> (r: Result<(i64, usize), DbError>)
    ensures
        match r {
            Ok((v, next)) => {
                &&& pos + 8 <= b@.len()
                &&& v as int == as_signed_64(be_load(b@.subrange(pos as int, pos + 8)))
                &&& next == pos + 8
            },
            Err(e) => pos + 8 > b@.len() && e is InvalidFormat,
        },
{
    match read_u64(b, pos) {
        Ok((u, next)) => {
            let v: i64 = if u < 0x8000_0000_0000_0000 {
                u as i64
            } else {
                -((u64::MAX - u) as i64) - 1
            };
            Ok((v, next))
        },
        Err(e) => Err(e),
    }
}

/// Read 8 big-endian bytes at `pos` as the raw bit pattern of a 64-bit
/// IEEE-754 value.  The bits are handed out unchanged; nothing here
/// interprets them.
pub fn read_f64_bits(b: &[u8], pos: usize) -> (r: Result<(u64, usize), DbError>)
    ensures
        match r {
            Ok((v, next)) => {
                &&& pos + 8 <= b@.len()
                &&& v as int == be_load(b@.subrange(pos as int, pos + 8))
                &&& next == pos + 8
            },
            Err(e) => pos + 8 > b@.len() && e is InvalidFormat,
        },
{
    read_u64(b, pos)
}

/// Skip 8 bytes of a 64-bit IEEE-754 value; returns the bytes consumed.
pub fn skip_f64(b: &[u8], pos: usize) -> (r: Result<usize, DbError>)
    ensures
        match r {
            Ok(n) => pos + 8 <= b@.len() && n == 8,
            Err(e) => pos + 8 > b@.len() && e is InvalidFormat,
        },
{
    if b.len() >= 8 && pos <= b.len() - 8 {
        Ok(8)
    } else {
        Err(DbError::InvalidFormat(msg_truncated()))
    }
}

/// Append the 8 big-endian bytes of `x`.
pub fn push_u64_be(out: &mut Vec<u8>, x: u64)
    ensures
        final(out)@ == old(out)@ + be_bytes(x as int, 8),
{
    let t0 = x;
    let t1 = t0 / 256;
    let t2 = t1 / 256;
    let t3 = t2 / 256;
    let t4 = t3 / 256;
    let t5 = t4 / 256;
    let t6 = t5 / 256;
    let t7 = t6 / 256;
    out.push((t7 % 256) as u8);
    out.push((t6 % 256) as u8);
    out.push((t5 % 256) as u8);
    out.push((t4 % 256) as u8);
    out.push((t3 % 256) as u8);
    out.push((t2 % 256) as u8);
    out.push((t1 % 256) as u8);
    out.push((t0 % 256) as u8);
    proof {
        assert(be_bytes(t0 as int, 8) =~= be_bytes(t1 as int, 7) + seq![(t0 % 256) as u8]);
        assert(be_bytes(t1 as int, 7) =~= be_bytes(t2 as int, 6) + seq![(t1 % 256) as u8]);
        assert(be_bytes(t2 as int, 6) =~= be_bytes(t3 as int, 5) + seq![(t2 % 256) as u8]);
        assert(be_bytes(t3 as int, 5) =~= be_bytes(t4 as int, 4) + seq![(t3 % 256) as u8]);
        assert(be_bytes(t4 as int, 4) =~= be_bytes(t5 as int, 3) + seq![(t4 % 256) as u8]);
        assert(be_bytes(t5 as int, 3) =~= be_bytes(t6 as int, 2) + seq![(t5 % 256) as u8]);
        assert(be_bytes(t6 as int, 2) =~= be_bytes(t7 as int, 1) + seq![(t6 % 256) as u8]);
        assert(be_bytes(t7 as int, 1) =~= be_bytes(t7 as int / 256, 0) + seq![(t7 % 256) as u8]);
        assert(be_bytes(t7 as int / 256, 0) =~= Seq::<u8>::empty());
        assert(out@ =~= old(out)@ + be_bytes(x as int, 8));
    }
}

/// Relies on `String::from_utf8`: it succeeds exactly on valid UTF-8 input
/// and decodes those bytes to the string's characters.
#[verifier::external_body]
pub(crate) fn string_from_utf8(v: Vec<u8>) -> (r: Option<String>)
    ensures
        match r {
            Some(s) => valid_utf8(v@) && s@ == decode_utf8(v@),
            None => !valid_utf8(v@),
        },
{
    String::from_utf8(v).ok()
}

/// The characters and total byte count of a length-prefixed string at
/// `pos`: one length byte, then that many UTF-8 bytes.
pub open spec fn string_at(b: Seq<u8>, pos: int) -> Option<(Seq<char>, int)> {
    if 0 <= pos < b.len() {
        let n = b[pos] as int;
        if pos + 1 + n <= b.len() {
            let body = b.subrange(pos + 1, pos + 1 + n);
            if valid_utf8(body) {
                Some((decode_utf8(body), 1 + n))
            } else {
                None
            }
        } else {
            None
        }
    } else {
        None
    }
}

/// The total byte count of a length-prefixed string at `pos`; skipping
/// does not look at the body, so it does not validate UTF-8.
pub open spec fn skip_string_at(b: Seq<u8>, pos: int) -> Option<int> {
    if 0 <= pos < b.len() {
        let n = b[pos] as int;
        if pos + 1 + n <= b.len() {
            Some(1 + n)
        } else {
            None
        }
    } else {
        None
    }
}

/// Read a length-prefixed string at `pos`; succeeds exactly when the
/// bytes are in bounds and are valid UTF-8, returning the string and the
/// bytes consumed.
pub fn read_string_u8(b: &[u8], pos: usize) -> (r: Result<(String, usize), DbError>)
    ensures
        match r {
            Ok((s, n)) => string_at(b@, pos as int) == Some((s@, n as int)),
            Err(e) => string_at(b@, pos as int) is None && e is InvalidFormat,
        },
{
    if pos >= b.len() {
        return Err(DbError::InvalidFormat(msg_truncated()));
    }
    let n = b[pos] as usize;
    if b.len() - pos - 1 < n {
        return Err(DbError::InvalidFormat(msg_truncated()));
    }
    let body = slice_subrange(b, pos + 1, pos + 1 + n);
    let body_vec = slice_to_vec(body);
    match string_from_utf8(body_vec) {
        Some(s) => Ok((s, 1 + n)),
        None => Err(DbError::InvalidFormat(msg_bad_utf8())),
    }
}

/// Skip a length-prefixed string at `pos` without validating its body;
/// returns the bytes consumed.
pub fn skip_string_u8(b: &[u8], pos: usize) -> (r: Result<usize, DbError>)
    ensures
        match r {
            Ok(n) => skip_string_at(b@, pos as int) == Some(n as int),
            Err(e) => skip_string_at(b@, pos as int) is None && e is InvalidFormat,
        },
{
    if pos >= b.len() {
        return Err(DbError::InvalidFormat(msg_truncated()));
    }
    let n = b[pos] as usize;
    if b.len() - pos - 1 < n {
        return Err(DbError::InvalidFormat(msg_truncated()));
    }
    Ok(1 + n)
}

fn msg_bad_utf8() -> String {
    String::from_str("string cell is not valid UTF-8")
}

fn msg_truncated() -> String {
    String::from_str("unexpected end of data")
}

} // verus!
