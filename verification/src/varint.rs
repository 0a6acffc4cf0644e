//! Variable-length integers: the block and index encoding for 64-bit values.
//!
//! A value is stored in 1 to 9 bytes.  The number of trailing zero bits of
//! the first byte gives the total length minus one; the payload is
//! little-endian within the varint.  Signed values are first mapped to
//! unsigned ones by the zig-zag transformation (`2|v|` for `v >= 0`,
//! `2|v| - 1` for `v < 0`).
use vstd::prelude::*;
use vstd::arithmetic::power2::*;
use vstd::arithmetic::div_mod::*;
use vstd::arithmetic::mul::*;
use vstd::string::StringExecFns;
use crate::DbError;

verus! {

/// The little-endian byte string of length `n` for the integer `x`
/// (low byte first; `x` is truncated to `n` bytes).
pub open spec fn le_bytes(x: int, n: nat) -> Seq<u8>
    decreases n,
{
    if n == 0 {
        Seq::empty()
    } else {
        seq![(x % 256) as u8] + le_bytes(x / 256, (n - 1) as nat)
    }
}

/// The integer read little-endian from the byte string `b`.
pub open spec fn le_load(b: Seq<u8>) -> int
    decreases b.len(),
{
    if b.len() == 0 {
        0
    } else {
        b.first() + 256 * le_load(b.drop_first())
    }
}

pub proof fn lemma_le_bytes_len(x: int, n: nat)
    ensures
        le_bytes(x, n).len() == n,
    decreases n,
{
    if n > 0 {
        lemma_le_bytes_len(x / 256, (n - 1) as nat);
    }
}

pub proof fn lemma_le_load_bound(b: Seq<u8>)
    ensures
        0 <= le_load(b) < pow2(8 * b.len()),
    decreases b.len(),
{
    if b.len() == 0 {
        assert(pow2(0) == 1) by { lemma2_to64(); };
    } else {
        lemma_le_load_bound(b.drop_first());
        lemma_pow2_adds(8, 8 * (b.len() - 1) as nat);
        assert(pow2(8) == 256) by { lemma2_to64(); };
    }
}

/// Round trip: loading the little-endian bytes of `x` gives back `x`.
pub proof fn lemma_le_load_le_bytes(x: int, n: nat)
    requires
        0 <= x < pow2(8 * n),
    ensures
        le_load(le_bytes(x, n)) == x,
    decreases n,
{
    if n == 0 {
        assert(pow2(0) == 1) by { lemma2_to64(); };
    } else {
        let rest = le_bytes(x / 256, (n - 1) as nat);
        assert(le_bytes(x, n).drop_first() =~= rest);
        lemma_pow2_adds(8, 8 * (n - 1) as nat);
        assert(pow2(8) == 256) by { lemma2_to64(); };
        assert(x < 256 * pow2(8 * (n - 1) as nat));
        assert(x / 256 < pow2(8 * (n - 1) as nat)) by {
            lemma_multiply_divide_lt(x, 256, pow2(8 * (n - 1) as nat) as int);
        };
        lemma_le_load_le_bytes(x / 256, (n - 1) as nat);
        assert(x % 256 + 256 * (x / 256) == x) by {
            lemma_fundamental_div_mod(x, 256);
        };
    }
}

/// The zig-zag image of a signed value: `2v` for `v >= 0`, `-2v - 1` otherwise.
pub open spec fn zigzag_spec(v: int) -> int {
    if v >= 0 {
        2 * v
    } else {
        -2 * v - 1
    }
}

/// The inverse of [`zigzag_spec`].
pub open spec fn unzigzag_spec(u: int) -> int {
    if u % 2 == 0 {
        u / 2
    } else {
        -(u / 2) - 1
    }
}

pub proof fn lemma_zigzag_roundtrip(v: int)
    ensures
        unzigzag_spec(zigzag_spec(v)) == v,
        v >= -0x8000_0000_0000_0000 && v < 0x8000_0000_0000_0000 ==> 0 <= zigzag_spec(v)
            < 0x1_0000_0000_0000_0000,
{
}

/// Number of bytes in the encoding of the unsigned value `v`.
pub open spec fn vint_len(v: int) -> int {
    if v < 0x80 {
        1
    } else if v < 0x4000 {
        2
    } else if v < 0x20_0000 {
        3
    } else if v < 0x1000_0000 {
        4
    } else if v < 0x8_0000_0000 {
        5
    } else if v < 0x400_0000_0000 {
        6
    } else if v < 0x2_0000_0000_0000 {
        7
    } else if v < 0x100_0000_0000_0000 {
        8
    } else {
        9
    }
}

/// The encoded bytes of the unsigned value `v`.
pub open spec fn vint_encode(v: int) -> Seq<u8> {
    let l = vint_len(v);
    if l == 9 {
        seq![0u8] + le_bytes(v, 8)
    } else {
        le_bytes((2 * v + 1) * pow2((l - 1) as nat), l as nat)
    }
}

/// Total length of a varint as announced by its first byte
/// (one plus the number of trailing zero bits).
pub open spec fn vint_decoded_len(b0: u8) -> int {
    if b0 % 2 == 1 {
        1
    } else if b0 % 4 == 2 {
        2
    } else if b0 % 8 == 4 {
        3
    } else if b0 % 16 == 8 {
        4
    } else if b0 % 32 == 16 {
        5
    } else if b0 % 64 == 32 {
        6
    } else if b0 % 128 == 64 {
        7
    } else if b0 == 128 {
        8
    } else {
        9
    }
}

/// The value and length decoded at `pos`, or `None` when the bytes there are
/// truncated or are not the minimal encoding of their value.
pub open spec fn vint_at(b: Seq<u8>, pos: int) -> Option<(u64, int)> {
    if 0 <= pos < b.len() {
        let l = vint_decoded_len(b[pos]);
        if pos + l <= b.len() {
            let v = if l == 9 {
                le_load(b.subrange(pos + 1, pos + 9))
            } else {
                le_load(b.subrange(pos, pos + l)) / pow2(l as nat) as int
            };
            if l == 1 || v >= pow2((7 * (l - 1)) as nat) {
                Some((v as u64, l))
            } else {
                None
            }
        } else {
            None
        }
    } else {
        None
    }
}

/// Length announced at `pos` when the whole varint lies inside `b`
/// (the skip operation validates no more than this).
pub open spec fn vint_skip_at(b: Seq<u8>, pos: int) -> Option<int> {
    if 0 <= pos < b.len() {
        let l = vint_decoded_len(b[pos]);
        if pos + l <= b.len() {
            Some(l)
        } else {
            None
        }
    } else {
        None
    }
}

/// The encoded zig-zag bytes of the signed value `v`.
pub open spec fn encode_zigzag(v: int) -> Seq<u8> {
    vint_encode(zigzag_spec(v))
}

/// The signed value and length decoded at `pos`.
pub open spec fn zigzag_at(b: Seq<u8>, pos: int) -> Option<(i64, int)> {
    match vint_at(b, pos) {
        Some((u, l)) => Some((unzigzag_spec(u as int) as i64, l)),
        None => None,
    }
}

proof fn lemma_vint_len_bounds(v: int)
    requires
        0 <= v < 0x1_0000_0000_0000_0000,
    ensures
        1 <= vint_len(v) <= 9,
        vint_len(v) <= 8 ==> v < pow2((7 * vint_len(v)) as nat),
        vint_len(v) >= 2 ==> v >= pow2((7 * (vint_len(v) - 1)) as nat),
        vint_len(v) == 9 ==> v >= pow2(56),
{
    lemma2_to64();
    lemma2_to64_rest();
}

/// The first byte of the short-form encoding: its low `l` bits are
/// `1 << (l - 1)`, so the announced length is `l`.
proof fn lemma_first_byte_len(v: int, l: int)
    requires
        1 <= l <= 8,
        0 <= v,
        l == vint_len(v),
    ensures
        vint_decoded_len((((2 * v + 1) * pow2((l - 1) as nat)) % 256) as u8) == l,
{
    lemma2_to64();
    let e = (2 * v + 1) * pow2((l - 1) as nat);
    let b0 = e % 256;
    assert(0 <= b0 < 256) by { lemma_mod_bound(e, 256); };

    // e == v * 2^l + 2^(l-1)
    assert(e == v * pow2(l as nat) + pow2((l - 1) as nat)) by {
        assert((2 * v + 1) * pow2((l - 1) as nat) == 2 * v * pow2((l - 1) as nat) + pow2(
            (l - 1) as nat,
        )) by {
            lemma_mul_is_distributive_add_other_way(pow2((l - 1) as nat) as int, 2 * v, 1);
        };
        assert(2 * v * pow2((l - 1) as nat) == v * (2 * pow2((l - 1) as nat))) by {
            lemma_mul_is_associative(2, v, pow2((l - 1) as nat) as int);
            lemma_mul_is_commutative(2, v);
            lemma_mul_is_associative(v, 2, pow2((l - 1) as nat) as int);
        };
        assert(2 * pow2((l - 1) as nat) == pow2(l as nat)) by {
            lemma_pow2_adds(1, (l - 1) as nat);
        };
    };

    // for k <= l: e % 2^k == if k == l { 2^(l-1) } else { 0 }
    assert forall|k: int| #![trigger pow2(k as nat)] 1 <= k <= l implies e % (pow2(k as nat) as int) == (if k == l {
        pow2((l - 1) as nat) as int
    } else {
        0
    }) by {
        let pk = pow2(k as nat) as int;
        lemma_pow2_pos(k as nat);
        if k == l {
            lemma_pow2_strictly_increases((l - 1) as nat, l as nat);
            assert(e == pk * v + pow2((l - 1) as nat)) by {
                lemma_mul_is_commutative(v, pk);
            };
            assert(e % pk == pow2((l - 1) as nat) as int) by {
                lemma_mod_multiples_vanish(v, pow2((l - 1) as nat) as int, pk);
                lemma_small_mod(pow2((l - 1) as nat), pk as nat);
            };
        } else {
            // both terms are multiples of 2^k
            let a = pow2((l - k) as nat) as int;
            let c = pow2((l - 1 - k) as nat) as int;
            assert(pow2(l as nat) == pk * a) by {
                lemma_pow2_adds(k as nat, (l - k) as nat);
            };
            assert(pow2((l - 1) as nat) == pk * c) by {
                lemma_pow2_adds(k as nat, (l - 1 - k) as nat);
            };
            assert(e == (v * a + c) * pk) by {
                lemma_mul_is_distributive_add_other_way(pk, v * a, c);
                assert(v * pow2(l as nat) == v * (pk * a));
                lemma_mul_is_associative(v, pk, a);
                lemma_mul_is_commutative(v, pk);
                lemma_mul_is_associative(pk, v, a);
                lemma_mul_is_commutative(pk, v * a);
                lemma_mul_is_commutative(pk, c);
            };
            assert(e % pk == 0) by {
                lemma_mod_multiples_basic(v * a + c, pk);
            };
        }
    };

    // the same holds of the first byte, b0 = e % 2^8
    assert forall|k: int| #![trigger pow2(k as nat)] 1 <= k <= 8 implies b0 % (pow2(k as nat) as int)
        == e % (pow2(k as nat) as int) by {
        lemma_pow2_adds(k as nat, (8 - k) as nat);
        lemma_pow2_pos(k as nat);
        lemma_pow2_pos((8 - k) as nat);
        lemma_mod_mod(e, pow2(k as nat) as int, pow2((8 - k) as nat) as int);
    };

    assert(pow2(1) == 2 && pow2(2) == 4 && pow2(3) == 8 && pow2(4) == 16 && pow2(5) == 32 && pow2(6)
        == 64 && pow2(7) == 128 && pow2(8) == 256);
    if l == 1 {
        assert(b0 % 2 == 1);
    } else if l == 2 {
        assert(b0 % 2 == 0 && b0 % 4 == 2);
    } else if l == 3 {
        assert(b0 % 2 == 0 && b0 % 4 == 0 && b0 % 8 == 4);
    } else if l == 4 {
        assert(b0 % 2 == 0 && b0 % 4 == 0 && b0 % 8 == 0 && b0 % 16 == 8);
    } else if l == 5 {
        assert(b0 % 2 == 0 && b0 % 4 == 0 && b0 % 8 == 0 && b0 % 16 == 0 && b0 % 32 == 16);
    } else if l == 6 {
        assert(b0 % 2 == 0 && b0 % 4 == 0 && b0 % 8 == 0 && b0 % 16 == 0 && b0 % 32 == 0 && b0 % 64
            == 32);
    } else if l == 7 {
        assert(b0 % 2 == 0 && b0 % 4 == 0 && b0 % 8 == 0 && b0 % 16 == 0 && b0 % 32 == 0 && b0 % 64
            == 0 && b0 % 128 == 64);
    } else {
        assert(b0 % 256 == 128) by {
            lemma_small_mod(b0 as nat, 256);
        };
        assert(b0 == 128);
    }
}

/// Round trip: wherever the bytes of `vint_encode(v)` stand in a buffer,
/// decoding there yields exactly `v` and consumes exactly its length.
pub proof fn lemma_vint_round_trip(b: Seq<u8>, pos: int, v: u64)
    requires
        0 <= pos,
        pos + vint_len(v as int) <= b.len(),
        b.subrange(pos, pos + vint_len(v as int)) =~= vint_encode(v as int),
    ensures
        vint_at(b, pos) == Some((v, vint_len(v as int))),
        vint_skip_at(b, pos) == Some(vint_len(v as int)),
{
    lemma2_to64();
    lemma2_to64_rest();
    let l = vint_len(v as int);
    lemma_vint_len_bounds(v as int);
    let enc = vint_encode(v as int);
    if l == 9 {
        lemma_le_bytes_len(v as int, 8);
        assert(enc[0] == 0);
        assert(b[pos] == 0);
        assert(vint_decoded_len(0) == 9);
        assert(b.subrange(pos, pos + 9) == vint_encode(v as int));
        assert forall|i: int| 0 <= i < 8 implies b.subrange(pos + 1, pos + 9)[i] == le_bytes(
            v as int,
            8,
        )[i] by {
            assert(b.subrange(pos + 1, pos + 9)[i] == b[pos + 1 + i]);
            assert(b.subrange(pos, pos + 9)[i + 1] == b[pos + 1 + i]);
            assert(vint_encode(v as int)[i + 1] == le_bytes(v as int, 8)[i]);
        };
        assert(b.subrange(pos + 1, pos + 9) =~= le_bytes(v as int, 8));
        lemma_le_load_le_bytes(v as int, 8);
        assert((v as int) >= pow2(56));
    } else {
        let e = (2 * (v as int) + 1) * pow2((l - 1) as nat);
        lemma_le_bytes_len(e, l as nat);
        assert((v as int) < pow2((7 * l) as nat));
        // e < 2^(8l)
        assert(e < pow2((8 * l) as nat)) by {
            assert(2 * (v as int) + 1 <= 2 * pow2((7 * l) as nat) - 1);
            assert(2 * pow2((7 * l) as nat) == pow2((7 * l + 1) as nat)) by {
                lemma_pow2_adds(1, (7 * l) as nat);
            };
            lemma_pow2_pos((l - 1) as nat);
            assert(e <= (pow2((7 * l + 1) as nat) - 1) * pow2((l - 1) as nat)) by {
                lemma_mul_inequality(
                    2 * (v as int) + 1,
                    pow2((7 * l + 1) as nat) - 1,
                    pow2((l - 1) as nat) as int,
                );
            };
            assert((pow2((7 * l + 1) as nat) - 1) * pow2((l - 1) as nat) < pow2((7 * l + 1) as nat)
                * pow2((l - 1) as nat)) by {
                lemma_mul_strict_inequality(
                    pow2((7 * l + 1) as nat) - 1,
                    pow2((7 * l + 1) as nat) as int,
                    pow2((l - 1) as nat) as int,
                );
            };
            lemma_pow2_adds((7 * l + 1) as nat, (l - 1) as nat);
        };
        assert(e >= 0) by {
            lemma_pow2_pos((l - 1) as nat);
            lemma_mul_nonnegative(2 * (v as int) + 1, pow2((l - 1) as nat) as int);
        };
        assert(b.subrange(pos, pos + l) =~= le_bytes(e, l as nat));
        assert(8 * (l as nat) == (8 * l) as nat);
        lemma_le_load_le_bytes(e, l as nat);
        // first byte announces length l
        assert(le_bytes(e, l as nat)[0] == (e % 256) as u8) by {
            lemma_le_bytes_len(e / 256, (l - 1) as nat);
        };
        lemma_first_byte_len(v as int, l);
        assert(vint_decoded_len(b[pos]) == l);
        // the loaded value divided by 2^l is v
        let loaded = le_load(b.subrange(pos, pos + l));
        assert(loaded == e);
        assert(e == (v as int) * pow2(l as nat) + pow2((l - 1) as nat)) by {
            lemma_mul_is_distributive_add_other_way(pow2((l - 1) as nat) as int, 2 * (v as int), 1);
            assert(2 * (v as int) * pow2((l - 1) as nat) == (v as int) * (2 * pow2(
                (l - 1) as nat,
            ))) by {
                lemma_mul_is_associative(2, v as int, pow2((l - 1) as nat) as int);
                lemma_mul_is_commutative(2, v as int);
                lemma_mul_is_associative(v as int, 2, pow2((l - 1) as nat) as int);
            };
            assert(2 * pow2((l - 1) as nat) == pow2(l as nat)) by {
                lemma_pow2_adds(1, (l - 1) as nat);
            };
        };
        assert(e / pow2(l as nat) as int == v as int) by {
            lemma_pow2_strictly_increases((l - 1) as nat, l as nat);
            lemma_pow2_pos((l - 1) as nat);
            lemma_fundamental_div_mod_converse(
                e,
                pow2(l as nat) as int,
                v as int,
                pow2((l - 1) as nat) as int,
            );
        };
        if l >= 2 {
            assert((v as int) >= pow2((7 * (l - 1)) as nat));
        }
    }
}

/// Skipping reads only the first byte: wherever an encoding's bytes stand,
/// the announced length equals the encoded length.
pub proof fn lemma_vint_encode_len(v: u64)
    ensures
        vint_encode(v as int).len() == vint_len(v as int),
        1 <= vint_len(v as int) <= 9,
{
    let l = vint_len(v as int);
    lemma_vint_len_bounds(v as int);
    if l == 9 {
        lemma_le_bytes_len(v as int, 8);
    } else {
        lemma_le_bytes_len((2 * (v as int) + 1) * pow2((l - 1) as nat), l as nat);
    }
}

/// Varint law: wherever the zig-zag encoding of a signed value stands in a
/// buffer, reading there yields the value and its encoded length, and
/// skipping consumes the same length.
pub proof fn lemma_zigzag_round_trip(b: Seq<u8>, pos: int, v: i64)
    requires
        0 <= pos,
        pos + encode_zigzag(v as int).len() <= b.len(),
        b.subrange(pos, pos + encode_zigzag(v as int).len()) =~= encode_zigzag(v as int),
    ensures
        zigzag_at(b, pos) == Some((v, encode_zigzag(v as int).len() as int)),
        vint_skip_at(b, pos) == Some(encode_zigzag(v as int).len() as int),
{
    let u = zigzag_spec(v as int);
    lemma_zigzag_roundtrip(v as int);
    lemma_vint_encode_len(u as u64);
    lemma_vint_round_trip(b, pos, u as u64);
}

/// Executable power of two for small exponents.
pub fn pow2_u64(e: usize) -> (r: u64)
    requires
        e < 64,
    ensures
        r as nat == pow2(e as nat),
{
    proof {
        lemma2_to64();
        lemma2_to64_rest();
    }
    let mut r: u64 = 1;
    let mut i: usize = 0;
    while i < e
        invariant
            i <= e < 64,
            r as nat == pow2(i as nat),
        decreases e - i,
    {
        proof {
            lemma2_to64();
            lemma_pow2_adds(1, i as nat);
            lemma_pow2_strictly_increases((i + 1) as nat, 64);
            lemma2_to64_rest();
        }
        r = r * 2;
        i = i + 1;
    }
    r
}

/// Executable length of the encoding of `v`.
pub fn vint_encoded_len_u64(v: u64) -> (l: usize)
    ensures
        l as int == vint_len(v as int),
{
    if v < 0x80 {
        1
    } else if v < 0x4000 {
        2
    } else if v < 0x20_0000 {
        3
    } else if v < 0x1000_0000 {
        4
    } else if v < 0x8_0000_0000 {
        5
    } else if v < 0x400_0000_0000 {
        6
    } else if v < 0x2_0000_0000_0000 {
        7
    } else if v < 0x100_0000_0000_0000 {
        8
    } else {
        9
    }
}

/// Append the `n` low little-endian bytes of `x`.
fn push_le_bytes(out: &mut Vec<u8>, x: u64, n: usize)
    requires
        n <= 8,
    ensures
        final(out)@ == old(out)@ + le_bytes(x as int, n as nat),
{
    let mut cur: u64 = x;
    let mut i: usize = 0;
    proof {
        lemma_le_bytes_len(x as int, n as nat);
    }
    while i < n
        invariant
            i <= n <= 8,
            old(out)@ + le_bytes(x as int, n as nat) =~= out@ + le_bytes(
                cur as int,
                (n - i) as nat,
            ),
        decreases n - i,
    {
        let ghost prev = out@;
        let ghost prev_cur = cur as int;
        out.push((cur % 256) as u8);
        cur = cur / 256;
        i = i + 1;
        proof {
            assert(le_bytes(prev_cur, (n - i + 1) as nat) =~= seq![(prev_cur % 256) as u8]
                + le_bytes(prev_cur / 256, (n - i) as nat));
            assert(out@ + le_bytes(cur as int, (n - i) as nat) =~= prev + le_bytes(
                prev_cur,
                (n - i + 1) as nat,
            ));
        }
    }
    proof {
        assert(le_bytes(cur as int, 0) =~= Seq::<u8>::empty());
        assert(out@ =~= old(out)@ + le_bytes(x as int, n as nat));
    }
}

/// Append the encoding of the unsigned value `v`.
pub fn push_vint_u64(out: &mut Vec<u8>, v: u64)
    ensures
        final(out)@ == old(out)@ + vint_encode(v as int),
{
    let l = vint_encoded_len_u64(v);
    if l == 9 {
        out.push(0u8);
        push_le_bytes(out, v, 8);
        proof {
            assert(old(out)@ + seq![0u8] + le_bytes(v as int, 8) =~= old(out)@ + (seq![0u8]
                + le_bytes(v as int, 8)));
        }
    } else {
        proof {
            lemma2_to64();
            lemma2_to64_rest();
        }
        let m = pow2_u64(l - 1);
        proof {
            let lg = l as int;
            assert((m as int) <= pow2(7) as int) by {
                if lg - 1 < 7 {
                    lemma_pow2_strictly_increases((lg - 1) as nat, 7);
                }
            };
            assert(v as int * 2 + 1 <= pow2(57) - 1);
            assert((v as int * 2 + 1) * (m as int) <= (pow2(57) - 1) * pow2(7)) by {
                lemma_mul_upper_bound(
                    v as int * 2 + 1,
                    pow2(57) as int - 1,
                    m as int,
                    pow2(7) as int,
                );
            };
            assert((pow2(57) - 1) * pow2(7) < pow2(57) * pow2(7)) by {
                lemma_mul_strict_inequality(pow2(57) as int - 1, pow2(57) as int, pow2(7) as int);
            };
            lemma_pow2_adds(57, 7);
            lemma_mul_nonnegative(v as int * 2 + 1, m as int);
        }
        let e = (v * 2 + 1) * m;
        push_le_bytes(out, e, l);
        proof {
            assert(vint_encode(v as int) == le_bytes(e as int, l as nat));
        }
    }
}

/// Append the zig-zag encoding of the signed value `v`.
pub fn push_zigzag_i64(out: &mut Vec<u8>, v: i64)
    ensures
        final(out)@ == old(out)@ + encode_zigzag(v as int),
{
    let u = zigzag_encode(v);
    push_vint_u64(out, u);
}

/// Executable zig-zag map.
pub fn zigzag_encode(v: i64) -> (u: u64)
    ensures
        u as int == zigzag_spec(v as int),
{
    if v >= 0 {
        (v as u64) * 2
    } else {
        let m = -(v + 1);
        (m as u64) * 2 + 1
    }
}

/// Executable inverse of the zig-zag map.
pub fn zigzag_decode(u: u64) -> (v: i64)
    ensures
        v as int == unzigzag_spec(u as int),
{
    if u % 2 == 0 {
        (u / 2) as i64
    } else {
        -((u / 2) as i64) - 1
    }
}

/// Executable length announced by a first byte.
pub fn vint_decoded_len_u8(b0: u8) -> (l: usize)
    ensures
        l as int == vint_decoded_len(b0),
{
    if b0 % 2 == 1 {
        1
    } else if b0 % 4 == 2 {
        2
    } else if b0 % 8 == 4 {
        3
    } else if b0 % 16 == 8 {
        4
    } else if b0 % 32 == 16 {
        5
    } else if b0 % 64 == 32 {
        6
    } else if b0 % 128 == 64 {
        7
    } else if b0 == 128 {
        8
    } else {
        9
    }
}

/// Load `n <= 8` little-endian bytes starting at `pos`.
fn load_le(b: &[u8], pos: usize, n: usize) -> (x: u64)
    requires
        pos + n <= b@.len(),
        n <= 8,
    ensures
        x as int == le_load(b@.subrange(pos as int, pos + n)),
{
    proof {
        lemma2_to64();
        lemma2_to64_rest();
    }
    let mut x: u64 = 0;
    let mut j: usize = n;
    let blen = b.len();
    while j > 0
        invariant
            j <= n <= 8,
            pos + n <= b@.len() <= usize::MAX,
            x as int == le_load(b@.subrange(pos + j, pos + n)),
            (x as nat) < pow2(8 * (n - j) as nat),
        decreases j,
    {
        let ghost old_x = x as int;
        let ghost old_j = j as int;
        proof {
            lemma2_to64();
            lemma_pow2_adds(8, 8 * (n - j) as nat);
            if 8 * (n - j) + 8 < 64 {
                lemma_pow2_strictly_increases((8 * (n - j) + 8) as nat, 64);
            }
            lemma2_to64_rest();
            lemma_le_load_bound(b@.subrange(pos + j, pos + n));
        }
        j = j - 1;
        x = x * 256 + (b[pos + j] as u64);
        proof {
            assert(b@.subrange(pos + j, pos + n) =~= seq![b@[pos + j]] + b@.subrange(
                pos + old_j,
                pos + n,
            ));
            let s = b@.subrange(pos + j, pos + n);
            assert(s.first() == b@[pos + j]);
            assert(s.drop_first() =~= b@.subrange(pos + old_j, pos + n));
            assert(le_load(s) == b@[pos + j] + 256 * old_x);
        }
    }
    proof {
        assert(b@.subrange(pos as int, pos + n) =~= b@.subrange(pos + 0, pos + n));
    }
    x
}

/// Read one unsigned varint at `pos`.
///
/// Succeeds exactly when [`vint_at`] is defined there; returns the value
/// and the number of bytes consumed.
pub fn read_vint_u64(b: &[u8], pos: usize) -> (r: Result<(u64, usize), DbError>)
    ensures
        match r {
            Ok((v, l)) => vint_at(b@, pos as int) == Some((v, l as int)) && 1 <= l <= 9,
            Err(e) => vint_at(b@, pos as int) is None && e is InvalidFormat,
        },
{
    proof {
        lemma2_to64();
        lemma2_to64_rest();
    }
    if pos >= b.len() {
        return Err(DbError::InvalidFormat(msg_truncated_varint()));
    }
    let b0 = b[pos];
    let l = vint_decoded_len_u8(b0);
    if b.len() - pos < l {
        return Err(DbError::InvalidFormat(msg_truncated_varint()));
    }
    let v: u64 = if l == 9 {
        load_le(b, pos + 1, 8)
    } else {
        let e = load_le(b, pos, l);
        let p = pow2_u64(l);
        proof {
            lemma_pow2_pos(l as nat);
        }
        e / p
    };
    proof {
        if l < 9 {
            lemma_le_load_bound(b@.subrange(pos as int, pos + l));
            lemma_pow2_pos(l as nat);
        }
    }
    if l == 1 {
        Ok((v, l))
    } else {
        let bound = pow2_u64(7 * (l - 1));
        if v >= bound {
            Ok((v, l))
        } else {
            Err(DbError::InvalidFormat(msg_noncanonical_varint()))
        }
    }
}

/// Read one zig-zag signed varint at `pos`.
pub fn read_zigzag_at(b: &[u8], pos: usize) -> (r: Result<(i64, usize), DbError>)
    ensures
        match r {
            Ok((v, l)) => zigzag_at(b@, pos as int) == Some((v, l as int)) && 1 <= l <= 9,
            Err(e) => zigzag_at(b@, pos as int) is None && e is InvalidFormat,
        },
{
    match read_vint_u64(b, pos) {
        Ok((u, l)) => {
            let v = zigzag_decode(u);
            proof {
                assert(v as int == unzigzag_spec(u as int));
            }
            Ok((v, l))
        },
        Err(e) => Err(e),
    }
}

/// Skip one varint at `pos` without decoding it; returns the bytes consumed.
pub fn skip_vint_at(b: &[u8], pos: usize) -> (r: Result<usize, DbError>)
    ensures
        match r {
            Ok(l) => vint_skip_at(b@, pos as int) == Some(l as int) && 1 <= l <= 9,
            Err(e) => vint_skip_at(b@, pos as int) is None && e is InvalidFormat,
        },
{
    if pos >= b.len() {
        return Err(DbError::InvalidFormat(msg_truncated_varint()));
    }
    let l = vint_decoded_len_u8(b[pos]);
    if b.len() - pos < l {
        return Err(DbError::InvalidFormat(msg_truncated_varint()));
    }
    Ok(l)
}

fn msg_truncated_varint() -> String {
    String::from_str("truncated varint")
}

fn msg_noncanonical_varint() -> String {
    String::from_str("varint is not minimally encoded")
}

} // verus!
