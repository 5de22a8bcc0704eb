//! Primitive wire codec: variable-length integers, fixed-width integers,
//! booleans, UUIDs and length-prefixed strings, read from and written to a
//! byte buffer at an explicit cursor position.
use vstd::prelude::*;

verus! {

use vstd::utf8::{valid_utf8, decode_utf8, encode_utf8};
broadcast use vstd::utf8::encode_utf8_valid_utf8, vstd::utf8::encode_utf8_decode_utf8;


/// Errors of the primitive codec.
///
/// `NotEnoughBytes` is transient: it means "wait for more input" and is only
/// a fault when a whole frame was expected to be present. `ValueTooLarge`
/// marks a length that exceeds a configured maximum, `Malformed` a byte
/// sequence that can never be a valid encoding.
#[derive(Clone, Copy, Debug, PartialEq, Eq, Structural)]
pub enum Error {
    NotEnoughBytes,
    ValueTooLarge,
    Malformed,
}

/// 128 to the power `i`: the weight of the `i`-th 7-bit group of a
/// variable-length integer.
pub open spec fn pow128(i: nat) -> int
    decreases i,
{
    if i == 0 {
        1
    } else {
        128 * pow128((i - 1) as nat)
    }
}

pub proof fn lemma_pow128_pos(i: nat)
    ensures
        pow128(i) >= 1,
    decreases i,
{
    if i > 0 {
        lemma_pow128_pos((i - 1) as nat);
    }
}

/// The first powers of 128, written out for the solver.
pub proof fn lemma_pow128_vals()
    ensures
        pow128(0) == 1,
        pow128(1) == 0x80,
        pow128(2) == 0x4000,
        pow128(3) == 0x20_0000,
        pow128(4) == 0x1000_0000,
        pow128(5) == 0x8_0000_0000,
        pow128(9) == 0x8000_0000_0000_0000,
        pow128(10) == 0x40_0000_0000_0000_0000,
{
    assert(pow128(1) == 128 * pow128(0));
    assert(pow128(2) == 128 * pow128(1));
    assert(pow128(3) == 128 * pow128(2));
    assert(pow128(4) == 128 * pow128(3));
    assert(pow128(5) == 128 * pow128(4));
    assert(pow128(6) == 128 * pow128(5));
    assert(pow128(7) == 128 * pow128(6));
    assert(pow128(8) == 128 * pow128(7));
    assert(pow128(9) == 128 * pow128(8));
    assert(pow128(10) == 128 * pow128(9));
}

/// The canonical variable-length encoding of a 32-bit value: 7-bit groups,
/// least significant first, the high bit of a byte set exactly when more
/// groups follow.
pub open spec fn var_u32_bytes(n: u32) -> Seq<u8>
    decreases n,
{
    if n < 0x80 {
        seq![n as u8]
    } else {
        seq![(n % 0x80 + 0x80) as u8] + var_u32_bytes(n / 0x80)
    }
}

/// The canonical variable-length encoding of a 64-bit value.
pub open spec fn var_u64_bytes(n: u64) -> Seq<u8>
    decreases n,
{
    if n < 0x80 {
        seq![n as u8]
    } else {
        seq![(n % 0x80 + 0x80) as u8] + var_u64_bytes(n / 0x80)
    }
}

/// A VarInt encoding takes between one and five bytes.
pub proof fn lemma_var_u32_bytes_len(n: u32)
    ensures
        1 <= var_u32_bytes(n).len() <= 5,
{
    let n1 = n / 0x80;
    let n2 = n1 / 0x80;
    let n3 = n2 / 0x80;
    let n4 = n3 / 0x80;
    assert(n4 < 0x80);
    reveal_with_fuel(var_u32_bytes, 6);
}

/// A VarLong encoding takes between one and ten bytes.
pub proof fn lemma_var_u64_bytes_len(n: u64)
    ensures
        1 <= var_u64_bytes(n).len() <= 10,
{
    let n1 = n / 0x80;
    let n2 = n1 / 0x80;
    let n3 = n2 / 0x80;
    let n4 = n3 / 0x80;
    let n5 = n4 / 0x80;
    let n6 = n5 / 0x80;
    let n7 = n6 / 0x80;
    let n8 = n7 / 0x80;
    let n9 = n8 / 0x80;
    assert(n9 < 0x80);
    reveal_with_fuel(var_u64_bytes, 11);
}

/// What reading a VarInt at `pos` yields, with `i` groups already consumed
/// and their weighted sum `acc`. A sixth byte with or without a
/// continuation bit is malformed; running out of buffer mid-value only asks
/// for more input.
pub open spec fn spec_read_var_u32(bytes: Seq<u8>, pos: int, i: nat, acc: int) -> Result<
    (u32, int),
    Error,
>
    decreases 5 - i,
{
    if !(0 <= pos < bytes.len()) {
        Err(Error::NotEnoughBytes)
    } else if i >= 5 {
        Err(Error::Malformed)
    } else {
        let b = bytes[pos];
        let acc2 = acc + (b % 0x80) * pow128(i);
        if b < 0x80 {
            Ok((acc2 as u32, pos + 1))
        } else {
            spec_read_var_u32(bytes, pos + 1, i + 1, acc2)
        }
    }
}

/// The 64-bit analogue of [`spec_read_var_u32`], with up to ten groups.
pub open spec fn spec_read_var_u64(bytes: Seq<u8>, pos: int, i: nat, acc: int) -> Result<
    (u64, int),
    Error,
>
    decreases 10 - i,
{
    if !(0 <= pos < bytes.len()) {
        Err(Error::NotEnoughBytes)
    } else if i >= 10 {
        Err(Error::Malformed)
    } else {
        let b = bytes[pos];
        let acc2 = acc + (b % 0x80) * pow128(i);
        if b < 0x80 {
            Ok((acc2 as u64, pos + 1))
        } else {
            spec_read_var_u64(bytes, pos + 1, i + 1, acc2)
        }
    }
}

/// Result of reading a VarInt field at `pos`.
pub open spec fn spec_read_var_int(bytes: Seq<u8>, pos: int) -> Result<(i32, int), Error> {
    match spec_read_var_u32(bytes, pos, 0, 0) {
        Ok((n, end)) => Ok((n as i32, end)),
        Err(e) => Err(e),
    }
}

/// Result of reading a VarLong field at `pos`.
pub open spec fn spec_read_var_long(bytes: Seq<u8>, pos: int) -> Result<(i64, int), Error> {
    match spec_read_var_u64(bytes, pos, 0, 0) {
        Ok((n, end)) => Ok((n as i64, end)),
        Err(e) => Err(e),
    }
}

/// Reads a VarInt from `buf` starting at `pos`.
pub fn read_var_int(buf: &[u8], pos: usize) -> (r: Result<(i32, usize), Error>)
    ensures
        match r {
            Ok((v, end)) => spec_read_var_int(buf@, pos as int) == Ok::<_, Error>((v, end as int))
                && pos < end <= buf@.len(),
            Err(e) => spec_read_var_int(buf@, pos as int) == Err::<(i32, int), _>(e),
        },
{
    let mut p: usize = pos;
    let mut i: u32 = 0;
    let mut acc: u64 = 0;
    let mut mult: u64 = 1;
    proof {
        lemma_pow128_vals();
    }
    loop
        invariant
            pos <= p,
            p == pos + i,
            i <= 5,
            mult == pow128(i as nat),
            0 <= acc < pow128(i as nat),
            pow128(i as nat) <= pow128(5),
            spec_read_var_u32(buf@, pos as int, 0, 0) == spec_read_var_u32(
                buf@,
                p as int,
                i as nat,
                acc as int,
            ),
        decreases 6 - i,
    {
        if p >= buf.len() {
            return Err(Error::NotEnoughBytes);
        }
        if i >= 5 {
            return Err(Error::Malformed);
        }
        let b = buf[p];
        proof {
            lemma_pow128_vals();
            lemma_pow128_mono(i as nat, 4);
            assert(((b as u64) % 0x80) * mult <= 0x7f * 0x1000_0000) by (nonlinear_arith)
                requires
                    mult <= 0x1000_0000u64,
            ;
        }
        let acc2: u64 = acc + ((b as u64) % 0x80) * mult;
        p = p + 1;
        i = i + 1;
        if b < 0x80 {
            return Ok(((acc2 as u32) as i32, p));
        }
        acc = acc2;
        mult = mult * 0x80;
        proof {
            assert(pow128((i - 1) as nat + 1) == 128 * pow128((i - 1) as nat));
            lemma_pow128_mono(i as nat, 5);
            assert(acc < pow128(i as nat)) by {
                assert(b % 0x80 <= 0x7f);
                assert((b as int % 0x80) * pow128((i - 1) as nat) <= 0x7f * pow128(
                    (i - 1) as nat,
                )) by (nonlinear_arith)
                    requires
                        b as int % 0x80 <= 0x7f,
                        pow128((i - 1) as nat) >= 1,
                ;
            }
        }
    }
}

/// Reads a VarLong from `buf` starting at `pos`.
pub fn read_var_long(buf: &[u8], pos: usize) -> (r: Result<(i64, usize), Error>)
    ensures
        match r {
            Ok((v, end)) => spec_read_var_long(buf@, pos as int) == Ok::<_, Error>((v, end as int))
                && pos < end <= buf@.len(),
            Err(e) => spec_read_var_long(buf@, pos as int) == Err::<(i64, int), _>(e),
        },
{
    let mut p: usize = pos;
    let mut i: u32 = 0;
    let mut acc: u128 = 0;
    let mut mult: u128 = 1;
    proof {
        lemma_pow128_vals();
    }
    loop
        invariant
            pos <= p,
            p == pos + i,
            i <= 10,
            mult == pow128(i as nat),
            0 <= acc < pow128(i as nat),
            pow128(i as nat) <= pow128(10),
            spec_read_var_u64(buf@, pos as int, 0, 0) == spec_read_var_u64(
                buf@,
                p as int,
                i as nat,
                acc as int,
            ),
        decreases 11 - i,
    {
        if p >= buf.len() {
            return Err(Error::NotEnoughBytes);
        }
        if i >= 10 {
            return Err(Error::Malformed);
        }
        let b = buf[p];
        proof {
            lemma_pow128_vals();
            lemma_pow128_mono(i as nat, 9);
            assert(((b as u128) % 0x80) * mult <= 0x7f * 0x8000_0000_0000_0000) by (nonlinear_arith)
                requires
                    mult <= 0x8000_0000_0000_0000u128,
            ;
        }
        let acc2: u128 = acc + ((b as u128) % 0x80) * mult;
        p = p + 1;
        i = i + 1;
        if b < 0x80 {
            return Ok(((acc2 as u64) as i64, p));
        }
        acc = acc2;
        mult = mult * 0x80;
        proof {
            assert(pow128((i - 1) as nat + 1) == 128 * pow128((i - 1) as nat));
            lemma_pow128_mono(i as nat, 10);
            assert(acc < pow128(i as nat)) by {
                assert(b % 0x80 <= 0x7f);
                assert((b as int % 0x80) * pow128((i - 1) as nat) <= 0x7f * pow128(
                    (i - 1) as nat,
                )) by (nonlinear_arith)
                    requires
                        b as int % 0x80 <= 0x7f,
                        pow128((i - 1) as nat) >= 1,
                ;
            }
        }
    }
}

/// `pow128` is monotone in its exponent.
pub proof fn lemma_pow128_mono(i: nat, j: nat)
    requires
        i <= j,
    ensures
        pow128(i) <= pow128(j),
    decreases j,
{
    if i < j {
        lemma_pow128_mono(i, (j - 1) as nat);
        lemma_pow128_pos((j - 1) as nat);
    }
}

/// Appends the canonical VarInt encoding of `v` to `buf`; returns how many
/// bytes were written.
pub fn write_var_int(buf: &mut Vec<u8>, v: i32) -> (n: usize)
    ensures
        final(buf)@ == old(buf)@ + var_u32_bytes(v as u32),
        n == var_u32_bytes(v as u32).len(),
        1 <= n <= 5,
{
    proof {
        lemma_var_u32_bytes_len(v as u32);
    }
    let mut x: u32 = v as u32;
    let mut n: usize = 0;
    loop
        invariant
            buf@.len() == old(buf)@.len() + n,
            old(buf)@ + var_u32_bytes(v as u32) == buf@ + var_u32_bytes(x),
            n + var_u32_bytes(x).len() == var_u32_bytes(v as u32).len(),
            var_u32_bytes(v as u32).len() <= 5,
        decreases x,
    {
        proof {
            lemma_var_u32_bytes_len(x);
        }
        if x < 0x80 {
            buf.push(x as u8);
            n = n + 1;
            proof {
                assert(old(buf)@ + var_u32_bytes(v as u32) =~= buf@);
            }
            return n;
        } else {
            let b: u8 = (x % 0x80 + 0x80) as u8;
            buf.push(b);
            n = n + 1;
            x = x / 0x80;
            proof {
                assert(old(buf)@ + var_u32_bytes(v as u32) =~= buf@ + var_u32_bytes(x));
            }
        }
    }
}

/// Appends the canonical VarLong encoding of `v` to `buf`.
pub fn write_var_long(buf: &mut Vec<u8>, v: i64) -> (n: usize)
    ensures
        final(buf)@ == old(buf)@ + var_u64_bytes(v as u64),
        n == var_u64_bytes(v as u64).len(),
        1 <= n <= 10,
{
    proof {
        lemma_var_u64_bytes_len(v as u64);
    }
    let mut x: u64 = v as u64;
    let mut n: usize = 0;
    loop
        invariant
            buf@.len() == old(buf)@.len() + n,
            old(buf)@ + var_u64_bytes(v as u64) == buf@ + var_u64_bytes(x),
            n + var_u64_bytes(x).len() == var_u64_bytes(v as u64).len(),
            var_u64_bytes(v as u64).len() <= 10,
        decreases x,
    {
        proof {
            lemma_var_u64_bytes_len(x);
        }
        if x < 0x80 {
            buf.push(x as u8);
            n = n + 1;
            proof {
                assert(old(buf)@ + var_u64_bytes(v as u64) =~= buf@);
            }
            return n;
        } else {
            let b: u8 = (x % 0x80 + 0x80) as u8;
            buf.push(b);
            n = n + 1;
            x = x / 0x80;
            proof {
                assert(old(buf)@ + var_u64_bytes(v as u64) =~= buf@ + var_u64_bytes(x));
            }
        }
    }
}

/// Decoding a canonical VarInt encoding embedded in a larger buffer, with
/// `i` groups already consumed into `acc`, yields the weighted total and
/// consumes exactly the encoding's bytes.
pub proof fn lemma_var_u32_embed(bytes: Seq<u8>, pos: int, n: u32, i: nat, acc: int)
    requires
        0 <= pos,
        pos + var_u32_bytes(n).len() <= bytes.len(),
        bytes.subrange(pos, pos + var_u32_bytes(n).len() as int) == var_u32_bytes(n),
        i + var_u32_bytes(n).len() <= 5,
        0 <= acc < pow128(i),
    ensures
        spec_read_var_u32(bytes, pos, i, acc) == Ok::<_, Error>(
            ((acc + n * pow128(i)) as u32, pos + var_u32_bytes(n).len()),
        ),
    decreases n,
{
    lemma_var_u32_bytes_len(n);
    lemma_pow128_pos(i);
    let enc = var_u32_bytes(n);
    let len = enc.len() as int;
    assert(bytes[pos] == bytes.subrange(pos, pos + len)[0]);
    if n < 0x80 {
        assert(enc[0] == n as u8);
        assert(bytes[pos] == n as u8);
    } else {
        let b = bytes[pos];
        assert(enc[0] == (n % 0x80 + 0x80) as u8);
        assert(b == (n % 0x80 + 0x80) as u8);
        assert(b >= 0x80);
        assert((b % 0x80) as int == n as int % 0x80);
        let acc2 = acc + (b % 0x80) * pow128(i);
        let n2 = n / 0x80;
        lemma_var_u32_bytes_len(n2);
        let len2 = var_u32_bytes(n2).len() as int;
        assert(len == 1 + len2);
        assert(bytes.subrange(pos + 1, pos + 1 + len2) =~= var_u32_bytes(n2)) by {
            assert forall|j: int| 0 <= j < len2 implies bytes[pos + 1 + j] == var_u32_bytes(n2)[j]
            by {
                assert(bytes.subrange(pos, pos + len)[j + 1] == bytes[pos + 1 + j]);
                assert(enc[j + 1] == var_u32_bytes(n2)[j]);
            }
        }
        assert(acc2 < pow128(i + 1)) by {
            assert(pow128(i + 1) == 128 * pow128(i));
            assert(acc2 <= acc + 0x7f * pow128(i) < 128 * pow128(i)) by (nonlinear_arith)
                requires
                    acc < pow128(i),
                    pow128(i) >= 1,
                    acc2 == acc + (n as int % 0x80) * pow128(i),
            ;
        }
        lemma_var_u32_embed(bytes, pos + 1, n2, i + 1, acc2);
        vstd::arithmetic::div_mod::lemma_fundamental_div_mod(n as int, 0x80);
        assert(acc2 + n2 * pow128(i + 1) == acc + n * pow128(i)) by (nonlinear_arith)
            requires
                acc2 == acc + (n as int % 0x80) * pow128(i),
                n2 == n as int / 0x80,
                pow128(i + 1) == 128 * pow128(i),
                n as int == 0x80 * (n as int / 0x80) + n as int % 0x80,
        ;
    }
}

/// The 64-bit analogue of [`lemma_var_u32_embed`].
pub proof fn lemma_var_u64_embed(bytes: Seq<u8>, pos: int, n: u64, i: nat, acc: int)
    requires
        0 <= pos,
        pos + var_u64_bytes(n).len() <= bytes.len(),
        bytes.subrange(pos, pos + var_u64_bytes(n).len() as int) == var_u64_bytes(n),
        i + var_u64_bytes(n).len() <= 10,
        0 <= acc < pow128(i),
    ensures
        spec_read_var_u64(bytes, pos, i, acc) == Ok::<_, Error>(
            ((acc + n * pow128(i)) as u64, pos + var_u64_bytes(n).len()),
        ),
    decreases n,
{
    lemma_var_u64_bytes_len(n);
    lemma_pow128_pos(i);
    let enc = var_u64_bytes(n);
    let len = enc.len() as int;
    assert(bytes[pos] == bytes.subrange(pos, pos + len)[0]);
    if n < 0x80 {
        assert(enc[0] == n as u8);
        assert(bytes[pos] == n as u8);
    } else {
        let b = bytes[pos];
        assert(enc[0] == (n % 0x80 + 0x80) as u8);
        assert(b == (n % 0x80 + 0x80) as u8);
        assert(b >= 0x80);
        assert((b % 0x80) as int == n as int % 0x80);
        let acc2 = acc + (b % 0x80) * pow128(i);
        let n2 = n / 0x80;
        lemma_var_u64_bytes_len(n2);
        let len2 = var_u64_bytes(n2).len() as int;
        assert(len == 1 + len2);
        assert(bytes.subrange(pos + 1, pos + 1 + len2) =~= var_u64_bytes(n2)) by {
            assert forall|j: int| 0 <= j < len2 implies bytes[pos + 1 + j] == var_u64_bytes(n2)[j]
            by {
                assert(bytes.subrange(pos, pos + len)[j + 1] == bytes[pos + 1 + j]);
                assert(enc[j + 1] == var_u64_bytes(n2)[j]);
            }
        }
        assert(acc2 < pow128(i + 1)) by {
            assert(pow128(i + 1) == 128 * pow128(i));
            assert(acc2 <= acc + 0x7f * pow128(i) < 128 * pow128(i)) by (nonlinear_arith)
                requires
                    acc < pow128(i),
                    pow128(i) >= 1,
                    acc2 == acc + (n as int % 0x80) * pow128(i),
            ;
        }
        lemma_var_u64_embed(bytes, pos + 1, n2, i + 1, acc2);
        vstd::arithmetic::div_mod::lemma_fundamental_div_mod(n as int, 0x80);
        assert(acc2 + n2 * pow128(i + 1) == acc + n * pow128(i)) by (nonlinear_arith)
            requires
                acc2 == acc + (n as int % 0x80) * pow128(i),
                n2 == n as int / 0x80,
                pow128(i + 1) == 128 * pow128(i),
                n as int == 0x80 * (n as int / 0x80) + n as int % 0x80,
        ;
    }
}

/// VarInt round trip: for every 32-bit value, decoding the canonical
/// encoding wherever it sits in a buffer yields the value back and consumes
/// exactly its bytes, of which there are at most five.
pub proof fn lemma_var_int_round_trip(bytes: Seq<u8>, pos: int, v: i32)
    requires
        0 <= pos,
        pos + var_u32_bytes(v as u32).len() <= bytes.len(),
        bytes.subrange(pos, pos + var_u32_bytes(v as u32).len() as int) == var_u32_bytes(v as u32),
    ensures
        spec_read_var_int(bytes, pos) == Ok::<_, Error>(
            (v, pos + var_u32_bytes(v as u32).len()),
        ),
        1 <= var_u32_bytes(v as u32).len() <= 5,
{
    let n = v as u32;
    lemma_var_u32_bytes_len(n);
    lemma_var_u32_embed(bytes, pos, n, 0, 0);
    assert(pow128(0) == 1);
    assert((0 + n * pow128(0)) as u32 == n);
    assert((n as i32) == v) by (bit_vector)
        requires
            n == v as u32,
    ;
}

/// VarLong round trip: the 64-bit analogue, at most ten bytes.
pub proof fn lemma_var_long_round_trip(bytes: Seq<u8>, pos: int, v: i64)
    requires
        0 <= pos,
        pos + var_u64_bytes(v as u64).len() <= bytes.len(),
        bytes.subrange(pos, pos + var_u64_bytes(v as u64).len() as int) == var_u64_bytes(v as u64),
    ensures
        spec_read_var_long(bytes, pos) == Ok::<_, Error>(
            (v, pos + var_u64_bytes(v as u64).len()),
        ),
        1 <= var_u64_bytes(v as u64).len() <= 10,
{
    let n = v as u64;
    lemma_var_u64_bytes_len(n);
    lemma_var_u64_embed(bytes, pos, n, 0, 0);
    assert(pow128(0) == 1);
    assert((0 + n * pow128(0)) as u64 == n);
    assert((n as i64) == v) by (bit_vector)
        requires
            n == v as u64,
    ;
}

/// Any successful VarInt parse sits within the buffer, takes at most five
/// bytes, and a parse of `c` further groups yields a value below
/// `128^(i+c)` while that weight still fits the 32-bit range.
pub proof fn lemma_var_u32_read_bounds(bytes: Seq<u8>, pos: int, i: nat, acc: int, v: u32, end: int)
    requires
        spec_read_var_u32(bytes, pos, i, acc) == Ok::<_, Error>((v, end)),
        0 <= acc < pow128(i),
        i <= 5,
    ensures
        pos < end <= bytes.len(),
        i + (end - pos) <= 5,
        i + (end - pos) <= 4 ==> (v as int) < pow128((i + end - pos) as nat),
    decreases 5 - i,
{
    lemma_pow128_vals();
    lemma_pow128_pos(i);
    let b = bytes[pos];
    let acc2 = acc + (b % 0x80) * pow128(i);
    assert(acc2 < pow128(i + 1)) by {
        assert(pow128(i + 1) == 128 * pow128(i));
        assert(acc2 <= acc + 0x7f * pow128(i) < 128 * pow128(i)) by (nonlinear_arith)
            requires
                acc < pow128(i),
                pow128(i) >= 1,
                acc2 == acc + (bytes[pos] as int % 0x80) * pow128(i),
        ;
    }
    if b < 0x80 {
        assert(v == acc2 as u32 && end == pos + 1);
        if i + 1 <= 4 {
            lemma_pow128_mono(i + 1, 4);
            assert(acc2 < 0x1_0000_0000);
            assert(v as int == acc2);
        }
    } else {
        lemma_var_u32_read_bounds(bytes, pos + 1, i + 1, acc2, v, end);
    }
}

/// The 64-bit analogue of [`lemma_var_u32_read_bounds`].
pub proof fn lemma_var_u64_read_bounds(bytes: Seq<u8>, pos: int, i: nat, acc: int, v: u64, end: int)
    requires
        spec_read_var_u64(bytes, pos, i, acc) == Ok::<_, Error>((v, end)),
        0 <= acc < pow128(i),
        i <= 10,
    ensures
        pos < end <= bytes.len(),
        i + (end - pos) <= 10,
        i + (end - pos) <= 9 ==> (v as int) < pow128((i + end - pos) as nat),
    decreases 10 - i,
{
    lemma_pow128_vals();
    lemma_pow128_pos(i);
    let b = bytes[pos];
    let acc2 = acc + (b % 0x80) * pow128(i);
    assert(acc2 < pow128(i + 1)) by {
        assert(pow128(i + 1) == 128 * pow128(i));
        assert(acc2 <= acc + 0x7f * pow128(i) < 128 * pow128(i)) by (nonlinear_arith)
            requires
                acc < pow128(i),
                pow128(i) >= 1,
                acc2 == acc + (bytes[pos] as int % 0x80) * pow128(i),
        ;
    }
    if b < 0x80 {
        assert(v == acc2 as u64 && end == pos + 1);
        if i + 1 <= 9 {
            lemma_pow128_mono(i + 1, 9);
            assert(acc2 < 0x1_0000_0000_0000_0000);
            assert(v as int == acc2);
        }
    } else {
        lemma_var_u64_read_bounds(bytes, pos + 1, i + 1, acc2, v, end);
    }
}

/// A value below `128^k` encodes in at most `k` bytes.
pub proof fn lemma_var_u32_len_le(n: u32, k: nat)
    requires
        1 <= k,
        (n as int) < pow128(k),
    ensures
        var_u32_bytes(n).len() <= k,
    decreases k,
{
    if n >= 0x80 {
        assert(pow128(k) == 128 * pow128((k - 1) as nat));
        lemma_pow128_pos((k - 1) as nat);
        assert(k >= 2);
        assert((n as int / 0x80) < pow128((k - 1) as nat)) by (nonlinear_arith)
            requires
                (n as int) < 128 * pow128((k - 1) as nat),
        ;
        lemma_var_u32_len_le(n / 0x80, (k - 1) as nat);
    }
}

/// The 64-bit analogue of [`lemma_var_u32_len_le`].
pub proof fn lemma_var_u64_len_le(n: u64, k: nat)
    requires
        1 <= k,
        (n as int) < pow128(k),
    ensures
        var_u64_bytes(n).len() <= k,
    decreases k,
{
    if n >= 0x80 {
        assert(pow128(k) == 128 * pow128((k - 1) as nat));
        lemma_pow128_pos((k - 1) as nat);
        assert(k >= 2);
        assert((n as int / 0x80) < pow128((k - 1) as nat)) by (nonlinear_arith)
            requires
                (n as int) < 128 * pow128((k - 1) as nat),
        ;
        lemma_var_u64_len_le(n / 0x80, (k - 1) as nat);
    }
}

/// Canonical form: a value whose canonical VarInt encoding takes `k` bytes
/// has no valid encoding shorter than `k` — every successful parse consumes
/// at least the canonical length.
pub proof fn lemma_var_int_canonical(bytes: Seq<u8>, pos: int, v: i32, end: int)
    requires
        spec_read_var_int(bytes, pos) == Ok::<_, Error>((v, end)),
    ensures
        var_u32_bytes(v as u32).len() <= end - pos,
{
    lemma_pow128_vals();
    match spec_read_var_u32(bytes, pos, 0, 0) {
        Ok((n, e)) => {
            assert(n as i32 == v && e == end);
            assert(v as u32 == n) by (bit_vector)
                requires
                    n as i32 == v,
            ;
            lemma_var_u32_read_bounds(bytes, pos, 0, 0, n, end);
            let c = end - pos;
            if c <= 4 {
                lemma_var_u32_len_le(n, c as nat);
            } else {
                lemma_var_u32_bytes_len(n);
            }
        },
        Err(_) => {
            assert(false);
        },
    }
}

/// The 64-bit analogue of [`lemma_var_int_canonical`].
pub proof fn lemma_var_long_canonical(bytes: Seq<u8>, pos: int, v: i64, end: int)
    requires
        spec_read_var_long(bytes, pos) == Ok::<_, Error>((v, end)),
    ensures
        var_u64_bytes(v as u64).len() <= end - pos,
{
    lemma_pow128_vals();
    match spec_read_var_u64(bytes, pos, 0, 0) {
        Ok((n, e)) => {
            assert(n as i64 == v && e == end);
            assert(v as u64 == n) by (bit_vector)
                requires
                    n as i64 == v,
            ;
            lemma_var_u64_read_bounds(bytes, pos, 0, 0, n, end);
            let c = end - pos;
            if c <= 9 {
                lemma_var_u64_len_le(n, c as nat);
            } else {
                lemma_var_u64_bytes_len(n);
            }
        },
        Err(_) => {
            assert(false);
        },
    }
}

/// Big-endian bytes of a 16-bit value.
pub open spec fn u16_be_bytes(v: u16) -> Seq<u8> {
    seq![(v / 0x100) as u8, (v % 0x100) as u8]
}

/// Big-endian bytes of a 32-bit value.
pub open spec fn u32_be_bytes(v: u32) -> Seq<u8> {
    seq![
        (v / 0x100_0000) as u8,
        ((v / 0x1_0000) % 0x100) as u8,
        ((v / 0x100) % 0x100) as u8,
        (v % 0x100) as u8,
    ]
}

/// Big-endian bytes of a 64-bit value.
pub open spec fn u64_be_bytes(v: u64) -> Seq<u8> {
    seq![
        (v / 0x100_0000_0000_0000) as u8,
        ((v / 0x1_0000_0000_0000) % 0x100) as u8,
        ((v / 0x100_0000_0000) % 0x100) as u8,
        ((v / 0x1_0000_0000) % 0x100) as u8,
        ((v / 0x100_0000) % 0x100) as u8,
        ((v / 0x1_0000) % 0x100) as u8,
        ((v / 0x100) % 0x100) as u8,
        (v % 0x100) as u8,
    ]
}

/// Result of reading one byte at `pos`.
pub open spec fn spec_read_u8(bytes: Seq<u8>, pos: int) -> Result<(u8, int), Error> {
    if 0 <= pos && pos + 1 <= bytes.len() {
        Ok((bytes[pos], pos + 1))
    } else {
        Err(Error::NotEnoughBytes)
    }
}

/// Result of reading a big-endian 16-bit value at `pos`.
pub open spec fn spec_read_u16(bytes: Seq<u8>, pos: int) -> Result<(u16, int), Error> {
    if 0 <= pos && pos + 2 <= bytes.len() {
        Ok(((bytes[pos] * 0x100 + bytes[pos + 1]) as u16, pos + 2))
    } else {
        Err(Error::NotEnoughBytes)
    }
}

/// Result of reading a big-endian 32-bit value at `pos`.
pub open spec fn spec_read_u32(bytes: Seq<u8>, pos: int) -> Result<(u32, int), Error> {
    if 0 <= pos && pos + 4 <= bytes.len() {
        Ok((
            (bytes[pos] * 0x100_0000 + bytes[pos + 1] * 0x1_0000 + bytes[pos + 2] * 0x100
                + bytes[pos + 3]) as u32,
            pos + 4,
        ))
    } else {
        Err(Error::NotEnoughBytes)
    }
}

/// Result of reading a big-endian 64-bit value at `pos`.
pub open spec fn spec_read_u64(bytes: Seq<u8>, pos: int) -> Result<(u64, int), Error> {
    if 0 <= pos && pos + 8 <= bytes.len() {
        Ok((
            (bytes[pos] * 0x100_0000_0000_0000 + bytes[pos + 1] * 0x1_0000_0000_0000 + bytes[pos
                + 2] * 0x100_0000_0000 + bytes[pos + 3] * 0x1_0000_0000 + bytes[pos + 4]
                * 0x100_0000 + bytes[pos + 5] * 0x1_0000 + bytes[pos + 6] * 0x100 + bytes[pos
                + 7]) as u64,
            pos + 8,
        ))
    } else {
        Err(Error::NotEnoughBytes)
    }
}

/// Result of reading a boolean byte at `pos`: zero is false, one is true,
/// anything else is malformed.
pub open spec fn spec_read_bool(bytes: Seq<u8>, pos: int) -> Result<(bool, int), Error> {
    if 0 <= pos && pos + 1 <= bytes.len() {
        if bytes[pos] == 0 {
            Ok((false, pos + 1))
        } else if bytes[pos] == 1 {
            Ok((true, pos + 1))
        } else {
            Err(Error::Malformed)
        }
    } else {
        Err(Error::NotEnoughBytes)
    }
}

/// Reads one byte.
pub fn read_u8(buf: &[u8], pos: usize) -> (r: Result<(u8, usize), Error>)
    ensures
        match r {
            Ok((v, end)) => spec_read_u8(buf@, pos as int) == Ok::<_, Error>((v, end as int))
                && end == pos + 1,
            Err(e) => spec_read_u8(buf@, pos as int) == Err::<(u8, int), _>(e),
        },
{
    if pos >= buf.len() {
        return Err(Error::NotEnoughBytes);
    }
    Ok((buf[pos], pos + 1))
}

/// Reads a big-endian 16-bit value.
pub fn read_u16(buf: &[u8], pos: usize) -> (r: Result<(u16, usize), Error>)
    ensures
        match r {
            Ok((v, end)) => spec_read_u16(buf@, pos as int) == Ok::<_, Error>((v, end as int))
                && end == pos + 2,
            Err(e) => spec_read_u16(buf@, pos as int) == Err::<(u16, int), _>(e),
        },
{
    if pos >= buf.len() || buf.len() - pos < 2 {
        return Err(Error::NotEnoughBytes);
    }
    let b0 = buf[pos] as u16;
    let b1 = buf[pos + 1] as u16;
    Ok((b0 * 0x100 + b1, pos + 2))
}

/// Reads a big-endian 32-bit value.
pub fn read_u32(buf: &[u8], pos: usize) -> (r: Result<(u32, usize), Error>)
    ensures
        match r {
            Ok((v, end)) => spec_read_u32(buf@, pos as int) == Ok::<_, Error>((v, end as int))
                && end == pos + 4,
            Err(e) => spec_read_u32(buf@, pos as int) == Err::<(u32, int), _>(e),
        },
{
    if pos >= buf.len() || buf.len() - pos < 4 {
        return Err(Error::NotEnoughBytes);
    }
    let b0 = buf[pos] as u32;
    let b1 = buf[pos + 1] as u32;
    let b2 = buf[pos + 2] as u32;
    let b3 = buf[pos + 3] as u32;
    Ok((b0 * 0x100_0000 + b1 * 0x1_0000 + b2 * 0x100 + b3, pos + 4))
}

/// Reads a big-endian 64-bit value.
pub fn read_u64(buf: &[u8], pos: usize) -> (r: Result<(u64, usize), Error>)
    ensures
        match r {
            Ok((v, end)) => spec_read_u64(buf@, pos as int) == Ok::<_, Error>((v, end as int))
                && end == pos + 8,
            Err(e) => spec_read_u64(buf@, pos as int) == Err::<(u64, int), _>(e),
        },
{
    if pos >= buf.len() || buf.len() - pos < 8 {
        return Err(Error::NotEnoughBytes);
    }
    let b0 = buf[pos] as u64;
    let b1 = buf[pos + 1] as u64;
    let b2 = buf[pos + 2] as u64;
    let b3 = buf[pos + 3] as u64;
    let b4 = buf[pos + 4] as u64;
    let b5 = buf[pos + 5] as u64;
    let b6 = buf[pos + 6] as u64;
    let b7 = buf[pos + 7] as u64;
    Ok((
        b0 * 0x100_0000_0000_0000 + b1 * 0x1_0000_0000_0000 + b2 * 0x100_0000_0000 + b3
            * 0x1_0000_0000 + b4 * 0x100_0000 + b5 * 0x1_0000 + b6 * 0x100 + b7,
        pos + 8,
    ))
}

/// Reads a boolean byte.
pub fn read_bool(buf: &[u8], pos: usize) -> (r: Result<(bool, usize), Error>)
    ensures
        match r {
            Ok((v, end)) => spec_read_bool(buf@, pos as int) == Ok::<_, Error>((v, end as int))
                && end == pos + 1,
            Err(e) => spec_read_bool(buf@, pos as int) == Err::<(bool, int), _>(e),
        },
{
    if pos >= buf.len() {
        return Err(Error::NotEnoughBytes);
    }
    let b = buf[pos];
    if b == 0 {
        Ok((false, pos + 1))
    } else if b == 1 {
        Ok((true, pos + 1))
    } else {
        Err(Error::Malformed)
    }
}

/// Appends one byte.
pub fn write_u8(buf: &mut Vec<u8>, v: u8)
    ensures
        final(buf)@ == old(buf)@ + seq![v],
{
    buf.push(v);
    proof {
        assert(final(buf)@ =~= old(buf)@ + seq![v]);
    }
}

/// Appends a 16-bit value, big-endian.
pub fn write_u16(buf: &mut Vec<u8>, v: u16)
    ensures
        final(buf)@ == old(buf)@ + u16_be_bytes(v),
{
    buf.push((v / 0x100) as u8);
    buf.push((v % 0x100) as u8);
    proof {
        assert(final(buf)@ =~= old(buf)@ + u16_be_bytes(v));
    }
}

/// Appends a 32-bit value, big-endian.
pub fn write_u32(buf: &mut Vec<u8>, v: u32)
    ensures
        final(buf)@ == old(buf)@ + u32_be_bytes(v),
{
    buf.push((v / 0x100_0000) as u8);
    buf.push(((v / 0x1_0000) % 0x100) as u8);
    buf.push(((v / 0x100) % 0x100) as u8);
    buf.push((v % 0x100) as u8);
    proof {
        assert(final(buf)@ =~= old(buf)@ + u32_be_bytes(v));
    }
}

/// Appends a 64-bit value, big-endian.
pub fn write_u64(buf: &mut Vec<u8>, v: u64)
    ensures
        final(buf)@ == old(buf)@ + u64_be_bytes(v),
{
    buf.push((v / 0x100_0000_0000_0000) as u8);
    buf.push(((v / 0x1_0000_0000_0000) % 0x100) as u8);
    buf.push(((v / 0x100_0000_0000) % 0x100) as u8);
    buf.push(((v / 0x1_0000_0000) % 0x100) as u8);
    buf.push(((v / 0x100_0000) % 0x100) as u8);
    buf.push(((v / 0x1_0000) % 0x100) as u8);
    buf.push(((v / 0x100) % 0x100) as u8);
    buf.push((v % 0x100) as u8);
    proof {
        assert(final(buf)@ =~= old(buf)@ + u64_be_bytes(v));
    }
}

/// Appends a boolean byte: one for true, zero for false.
pub fn write_bool(buf: &mut Vec<u8>, v: bool)
    ensures
        final(buf)@ == old(buf)@ + seq![if v { 1u8 } else { 0u8 }],
{
    buf.push(if v { 1 } else { 0 });
    proof {
        assert(final(buf)@ =~= old(buf)@ + seq![if v { 1u8 } else { 0u8 }]);
    }
}

/// Reading the written big-endian bytes of a 16-bit value yields it back.
pub proof fn lemma_u16_round_trip(bytes: Seq<u8>, pos: int, v: u16)
    requires
        0 <= pos,
        pos + 2 <= bytes.len(),
        bytes.subrange(pos, pos + 2) == u16_be_bytes(v),
    ensures
        spec_read_u16(bytes, pos) == Ok::<_, Error>((v, pos + 2)),
{
    assert(bytes[pos] == u16_be_bytes(v)[0]);
    assert(bytes[pos + 1] == u16_be_bytes(v)[1]);
}

/// Reading the written big-endian bytes of a 32-bit value yields it back.
pub proof fn lemma_u32_round_trip(bytes: Seq<u8>, pos: int, v: u32)
    requires
        0 <= pos,
        pos + 4 <= bytes.len(),
        bytes.subrange(pos, pos + 4) == u32_be_bytes(v),
    ensures
        spec_read_u32(bytes, pos) == Ok::<_, Error>((v, pos + 4)),
{
    assert(bytes[pos] == u32_be_bytes(v)[0]);
    assert(bytes[pos + 1] == u32_be_bytes(v)[1]);
    assert(bytes[pos + 2] == u32_be_bytes(v)[2]);
    assert(bytes[pos + 3] == u32_be_bytes(v)[3]);
}

/// Reading the written big-endian bytes of a 64-bit value yields it back.
pub proof fn lemma_u64_round_trip(bytes: Seq<u8>, pos: int, v: u64)
    requires
        0 <= pos,
        pos + 8 <= bytes.len(),
        bytes.subrange(pos, pos + 8) == u64_be_bytes(v),
    ensures
        spec_read_u64(bytes, pos) == Ok::<_, Error>((v, pos + 8)),
{
    assert(bytes[pos] == u64_be_bytes(v)[0]);
    assert(bytes[pos + 1] == u64_be_bytes(v)[1]);
    assert(bytes[pos + 2] == u64_be_bytes(v)[2]);
    assert(bytes[pos + 3] == u64_be_bytes(v)[3]);
    assert(bytes[pos + 4] == u64_be_bytes(v)[4]);
    assert(bytes[pos + 5] == u64_be_bytes(v)[5]);
    assert(bytes[pos + 6] == u64_be_bytes(v)[6]);
    assert(bytes[pos + 7] == u64_be_bytes(v)[7]);
    assert(((v / 0x100_0000_0000_0000) as u8) * 0x100_0000_0000_0000 + (((v / 0x1_0000_0000_0000)
        % 0x100) as u8) * 0x1_0000_0000_0000 + (((v / 0x100_0000_0000) % 0x100) as u8)
        * 0x100_0000_0000 + (((v / 0x1_0000_0000) % 0x100) as u8) * 0x1_0000_0000 + (((v
        / 0x100_0000) % 0x100) as u8) * 0x100_0000 + (((v / 0x1_0000) % 0x100) as u8) * 0x1_0000 + (
    ((v / 0x100) % 0x100) as u8) * 0x100 + ((v % 0x100) as u8) == v) by (bit_vector);
}

/// Copies `buf[from..to]` into a fresh vector.
pub fn copy_range(buf: &[u8], from: usize, to: usize) -> (r: Vec<u8>)
    requires
        from <= to <= buf@.len(),
    ensures
        r@ == buf@.subrange(from as int, to as int),
{
    let mut out: Vec<u8> = Vec::new();
    let mut i: usize = from;
    while i < to
        invariant
            from <= i <= to <= buf@.len(),
            out@ == buf@.subrange(from as int, i as int),
        decreases to - i,
    {
        out.push(buf[i]);
        proof {
            assert(out@ =~= buf@.subrange(from as int, i + 1 as int));
        }
        i = i + 1;
    }
    out
}

/// Relies on `String::from_utf8`: it succeeds exactly on valid UTF-8 input
/// and the returned string's UTF-8 encoding is the input bytes.
#[verifier::external_body]
fn string_from_utf8(bytes: Vec<u8>) -> (r: Option<String>)
    ensures
        match r {
            Some(s) => encode_utf8(s@) == bytes@,
            None => !valid_utf8(bytes@),
        },
{
    match String::from_utf8(bytes) {
        Ok(s) => Some(s),
        Err(_) => None,
    }
}

/// Result of reading a length-prefixed UTF-8 string at `pos`: a VarInt byte
/// count, rejected above `max`, then that many bytes decoded as UTF-8.
pub open spec fn spec_read_string(bytes: Seq<u8>, pos: int, max: int) -> Result<
    (Seq<char>, int),
    Error,
> {
    match spec_read_var_int(bytes, pos) {
        Err(e) => Err(e),
        Ok((len, p)) => if len < 0 || len > max {
            Err(Error::ValueTooLarge)
        } else if p + len > bytes.len() {
            Err(Error::NotEnoughBytes)
        } else {
            let content = bytes.subrange(p, p + len);
            if valid_utf8(content) {
                Ok((decode_utf8(content), p + len))
            } else {
                Err(Error::Malformed)
            }
        },
    }
}

/// The wire bytes of a string, if its UTF-8 encoding is within `max` bytes:
/// a VarInt byte count followed by the encoding.
pub open spec fn spec_write_string(s: Seq<char>, max: int) -> Result<Seq<u8>, Error> {
    let content = encode_utf8(s);
    if content.len() > max {
        Err(Error::ValueTooLarge)
    } else {
        Ok(var_u32_bytes(content.len() as u32) + content)
    }
}

/// Reads a length-prefixed UTF-8 string, rejecting byte counts above `max`.
pub fn read_string(buf: &[u8], pos: usize, max: u16) -> (r: Result<(String, usize), Error>)
    ensures
        match r {
            Ok((s, end)) => spec_read_string(buf@, pos as int, max as int) == Ok::<_, Error>(
                (s@, end as int),
            ) && pos < end <= buf@.len(),
            Err(e) => spec_read_string(buf@, pos as int, max as int) == Err::<(Seq<char>, int), _>(
                e,
            ),
        },
{
    let (len_i, p) = match read_var_int(buf, pos) {
        Ok(x) => x,
        Err(e) => {
            return Err(e);
        },
    };
    if len_i < 0 {
        return Err(Error::ValueTooLarge);
    }
    let len = len_i as usize;
    if len > max as usize {
        return Err(Error::ValueTooLarge);
    }
    if len > buf.len() - p {
        return Err(Error::NotEnoughBytes);
    }
    let content = copy_range(buf, p, p + len);
    match string_from_utf8(content) {
        Some(s) => Ok((s, p + len)),
        None => Err(Error::Malformed),
    }
}

/// Writes a length-prefixed UTF-8 string, rejecting byte counts above `max`;
/// on success returns how many bytes were appended.
pub fn write_string(buf: &mut Vec<u8>, s: &String, max: u16) -> (r: Result<usize, Error>)
    ensures
        match r {
            Ok(n) => spec_write_string(s@, max as int) matches Ok(w) && final(buf)@ == old(buf)@ + w
                && n == w.len(),
            Err(e) => spec_write_string(s@, max as int) == Err::<Seq<u8>, _>(e) && final(buf)@
                == old(buf)@,
        },
{
    let bytes_len = s.as_str().len();
    if bytes_len > max as usize {
        return Err(Error::ValueTooLarge);
    }
    let n1 = write_var_int(buf, bytes_len as i32);
    let mut content = s.as_str().as_bytes_vec();
    let n2 = content.len();
    buf.append(&mut content);
    proof {
        assert((bytes_len as i32) as u32 == bytes_len as u32);
        assert(final(buf)@ =~= old(buf)@ + (var_u32_bytes(bytes_len as u32) + encode_utf8(s@)));
    }
    Ok(n1 + n2)
}

/// A universally unique identifier, sixteen raw bytes on the wire, held as
/// the big-endian most- and least-significant halves.
#[derive(Debug, Clone, Copy, PartialEq, Eq, Structural)]
pub struct Uuid {
    pub msb: u64,
    pub lsb: u64,
}

/// Result of reading a UUID at `pos`: sixteen raw bytes, big-endian halves.
pub open spec fn spec_read_uuid(bytes: Seq<u8>, pos: int) -> Result<(Uuid, int), Error> {
    match spec_read_u64(bytes, pos) {
        Err(e) => Err(e),
        Ok((msb, p)) => match spec_read_u64(bytes, p) {
            Err(e) => Err(e),
            Ok((lsb, end)) => Ok((Uuid { msb, lsb }, end)),
        },
    }
}

/// The sixteen wire bytes of a UUID.
pub open spec fn uuid_bytes(u: Uuid) -> Seq<u8> {
    u64_be_bytes(u.msb) + u64_be_bytes(u.lsb)
}

/// Reads a UUID.
pub fn read_uuid(buf: &[u8], pos: usize) -> (r: Result<(Uuid, usize), Error>)
    ensures
        match r {
            Ok((v, end)) => spec_read_uuid(buf@, pos as int) == Ok::<_, Error>((v, end as int))
                && end == pos + 16,
            Err(e) => spec_read_uuid(buf@, pos as int) == Err::<(Uuid, int), _>(e),
        },
{
    let (msb, p) = match read_u64(buf, pos) {
        Ok(x) => x,
        Err(e) => {
            return Err(e);
        },
    };
    let (lsb, end) = match read_u64(buf, p) {
        Ok(x) => x,
        Err(e) => {
            return Err(e);
        },
    };
    Ok((Uuid { msb, lsb }, end))
}

/// Writes a UUID as sixteen raw bytes.
pub fn write_uuid(buf: &mut Vec<u8>, u: Uuid)
    ensures
        final(buf)@ == old(buf)@ + uuid_bytes(u),
{
    write_u64(buf, u.msb);
    write_u64(buf, u.lsb);
    proof {
        assert(final(buf)@ =~= old(buf)@ + uuid_bytes(u));
    }
}

/// A 32-bit value carried as a variable-length integer on the wire.
#[derive(Debug, Clone, Copy, PartialEq, Eq, Structural)]
pub struct VarInt {
    pub inner: i32,
}

impl From<i32> for VarInt {
    fn from(n: i32) -> (r: Self) {
        VarInt { inner: n }
    }
}

impl vstd::std_specs::convert::FromSpecImpl<i32> for VarInt {
    open spec fn obeys_from_spec() -> bool {
        true
    }

    open spec fn from_spec(n: i32) -> Self {
        VarInt { inner: n }
    }
}

impl VarInt {
    /// Reads a VarInt field.
    pub fn try_read(buf: &[u8], pos: usize) -> (r: Result<(VarInt, usize), Error>)
        ensures
            match r {
                Ok((v, end)) => spec_read_var_int(buf@, pos as int) == Ok::<_, Error>(
                    (v.inner, end as int),
                ) && pos < end <= buf@.len(),
                Err(e) => spec_read_var_int(buf@, pos as int) == Err::<(i32, int), _>(e),
            },
    {
        match read_var_int(buf, pos) {
            Ok((v, end)) => Ok((VarInt { inner: v }, end)),
            Err(e) => Err(e),
        }
    }

    /// Appends the canonical encoding of this value.
    pub fn write(&self, buf: &mut Vec<u8>) -> (n: usize)
        ensures
            final(buf)@ == old(buf)@ + var_u32_bytes(self.inner as u32),
            n == var_u32_bytes(self.inner as u32).len(),
    {
        write_var_int(buf, self.inner)
    }
}

/// A 64-bit value carried as a variable-length integer on the wire.
#[derive(Debug, Clone, Copy, PartialEq, Eq, Structural)]
pub struct VarLong {
    pub inner: i64,
}

impl From<i64> for VarLong {
    fn from(n: i64) -> (r: Self) {
        VarLong { inner: n }
    }
}

impl vstd::std_specs::convert::FromSpecImpl<i64> for VarLong {
    open spec fn obeys_from_spec() -> bool {
        true
    }

    open spec fn from_spec(n: i64) -> Self {
        VarLong { inner: n }
    }
}

impl VarLong {
    /// Reads a VarLong field.
    pub fn try_read(buf: &[u8], pos: usize) -> (r: Result<(VarLong, usize), Error>)
        ensures
            match r {
                Ok((v, end)) => spec_read_var_long(buf@, pos as int) == Ok::<_, Error>(
                    (v.inner, end as int),
                ) && pos < end <= buf@.len(),
                Err(e) => spec_read_var_long(buf@, pos as int) == Err::<(i64, int), _>(e),
            },
    {
        match read_var_long(buf, pos) {
            Ok((v, end)) => Ok((VarLong { inner: v }, end)),
            Err(e) => Err(e),
        }
    }

    /// Appends the canonical encoding of this value.
    pub fn write(&self, buf: &mut Vec<u8>) -> (n: usize)
        ensures
            final(buf)@ == old(buf)@ + var_u64_bytes(self.inner as u64),
            n == var_u64_bytes(self.inner as u64).len(),
    {
        write_var_long(buf, self.inner)
    }
}

/// How deeply lists and compounds of the structured-data grammar may
/// nest before a blob is rejected: a bound on the skipper's recursion.
pub const MAX_NBT_DEPTH: u64 = 128;

/// The payload width of a fixed-size structured-data tag, zero for the
/// variable-size tags.
pub open spec fn spec_nbt_fixed_width(tag: u8) -> int {
    if tag == 1 {
        1
    } else if tag == 2 {
        2
    } else if tag == 3 {
        4
    } else if tag == 4 {
        8
    } else if tag == 5 {
        4
    } else if tag == 6 {
        8
    } else {
        0
    }
}

/// The position after one bare structured-data payload of kind `tag` at
/// `pos`: fixed-width scalars; a 16-bit-length-prefixed string; byte,
/// 32-bit and 64-bit arrays behind a signed 32-bit count, rejected when
/// negative; a list of one element kind behind such a count; a compound of
/// named entries up to an end marker. `depth` bounds nesting.
pub open spec fn spec_nbt_value_end(bytes: Seq<u8>, pos: int, tag: u8, depth: nat) -> Option<int>
    decreases bytes.len() - pos, 2int, 0int,
{
    if !(0 <= pos <= bytes.len()) {
        None
    } else if spec_nbt_fixed_width(tag) > 0 {
        if pos + spec_nbt_fixed_width(tag) <= bytes.len() {
            Some(pos + spec_nbt_fixed_width(tag))
        } else {
            None
        }
    } else if tag == 8 {
        match spec_read_u16(bytes, pos) {
            Ok((n, p)) => if p + n <= bytes.len() {
                Some(p + n)
            } else {
                None
            },
            Err(_) => None,
        }
    } else if tag == 7 || tag == 11 || tag == 12 {
        let elem: int = if tag == 7 {
            1
        } else if tag == 11 {
            4
        } else {
            8
        };
        match spec_read_u32(bytes, pos) {
            Ok((n, p)) => if n >= 0x8000_0000 {
                None
            } else if p + n * elem <= bytes.len() {
                Some(p + n * elem)
            } else {
                None
            },
            Err(_) => None,
        }
    } else if tag == 9 {
        if depth == 0 {
            None
        } else {
            match spec_read_u8(bytes, pos) {
                Ok((t, p1)) => match spec_read_u32(bytes, p1) {
                    Ok((n, p2)) => if n >= 0x8000_0000 {
                        None
                    } else {
                        spec_nbt_list_end(bytes, p2, t, n as nat, (depth - 1) as nat)
                    },
                    Err(_) => None,
                },
                Err(_) => None,
            }
        }
    } else if tag == 10 {
        if depth == 0 {
            None
        } else {
            spec_nbt_compound_end(bytes, pos, (depth - 1) as nat)
        }
    } else {
        None
    }
}

/// The position after `count` bare payloads of kind `tag`, each of which
/// must make progress.
pub open spec fn spec_nbt_list_end(
    bytes: Seq<u8>,
    pos: int,
    tag: u8,
    count: nat,
    depth: nat,
) -> Option<int>
    decreases bytes.len() - pos, 3int, 0int,
{
    if !(0 <= pos <= bytes.len()) {
        None
    } else if count == 0 {
        Some(pos)
    } else {
        match spec_nbt_value_end(bytes, pos, tag, depth) {
            Some(p2) => if pos < p2 <= bytes.len() {
                spec_nbt_list_end(bytes, p2, tag, (count - 1) as nat, depth)
            } else {
                None
            },
            None => None,
        }
    }
}

/// The position after a compound payload at `pos`: named entries, each a
/// tag byte, a 16-bit-length-prefixed name and a bare payload, up to and
/// including the end-marker byte.
pub open spec fn spec_nbt_compound_end(bytes: Seq<u8>, pos: int, depth: nat) -> Option<int>
    decreases bytes.len() - pos, 1int, 0int,
{
    if !(0 <= pos < bytes.len()) {
        None
    } else if bytes[pos] == 0 {
        Some(pos + 1)
    } else {
        let tag = bytes[pos];
        match spec_read_u16(bytes, pos + 1) {
            Ok((nl, p1)) => if p1 + nl <= bytes.len() {
                match spec_nbt_value_end(bytes, p1 + nl, tag, depth) {
                    Some(p2) => if pos < p2 <= bytes.len() {
                        spec_nbt_compound_end(bytes, p2, depth)
                    } else {
                        None
                    },
                    None => None,
                }
            } else {
                None
            },
            Err(_) => None,
        }
    }
}

/// The position after one whole structured-data blob at `pos`: a compound
/// root tag, a 16-bit-length-prefixed name, then the compound payload.
pub open spec fn spec_nbt_end(bytes: Seq<u8>, pos: int) -> Option<int> {
    match spec_read_u8(bytes, pos) {
        Ok((tag, p1)) => if tag != 0x0a {
            None
        } else {
            match spec_read_u16(bytes, p1) {
                Ok((nl, p2)) => if p2 + nl <= bytes.len() {
                    spec_nbt_value_end(bytes, p2 + nl, 0x0a, MAX_NBT_DEPTH as nat)
                } else {
                    None
                },
                Err(_) => None,
            }
        },
        Err(_) => None,
    }
}

/// Exec counterpart of [`spec_nbt_fixed_width`].
fn nbt_fixed_width(tag: u8) -> (r: usize)
    ensures
        r == spec_nbt_fixed_width(tag),
{
    if tag == 1 {
        1
    } else if tag == 2 {
        2
    } else if tag == 3 {
        4
    } else if tag == 4 {
        8
    } else if tag == 5 {
        4
    } else if tag == 6 {
        8
    } else {
        0
    }
}

/// Skips one bare structured-data payload, without parsing any value.
#[verifier::loop_isolation(false)]
#[verifier::rlimit(100)]
fn nbt_value_end(buf: &[u8], pos: usize, tag: u8, depth: u64) -> (r: Option<usize>)
    requires
        pos <= buf@.len(),
    ensures
        match r {
            Some(end) => spec_nbt_value_end(buf@, pos as int, tag, depth as nat) == Some(
                end as int,
            ) && pos <= end <= buf@.len(),
            None => spec_nbt_value_end(buf@, pos as int, tag, depth as nat) is None,
        },
    decreases buf@.len() - pos, 2int, 0int,
{
    let len = buf.len();
    let w = nbt_fixed_width(tag);
    if w > 0 {
        if len - pos >= w {
            return Some(pos + w);
        }
        return None;
    }
    if tag == 8 {
        return match read_u16(buf, pos) {
            Ok((n, p)) => {
                if n as usize <= len - p {
                    Some(p + n as usize)
                } else {
                    None
                }
            },
            Err(_) => None,
        };
    }
    if tag == 7 || tag == 11 || tag == 12 {
        let elem: u64 = if tag == 7 {
            1
        } else if tag == 11 {
            4
        } else {
            8
        };
        return match read_u32(buf, pos) {
            Ok((n, p)) => {
                if n >= 0x8000_0000 {
                    None
                } else {
                    let total: u64 = (n as u64) * elem;
                    if total <= (len - p) as u64 {
                        Some(p + total as usize)
                    } else {
                        None
                    }
                }
            },
            Err(_) => None,
        };
    }
    if tag == 9 {
        if depth == 0 {
            return None;
        }
        let (t, p1) = match read_u8(buf, pos) {
            Ok(x) => x,
            Err(_) => {
                return None;
            },
        };
        let (n, p2) = match read_u32(buf, p1) {
            Ok(x) => x,
            Err(_) => {
                return None;
            },
        };
        if n >= 0x8000_0000 {
            return None;
        }
        let mut p: usize = p2;
        let mut remaining: u32 = n;
        while remaining > 0
            invariant
                p2 <= p <= buf@.len(),
                spec_nbt_list_end(buf@, p2 as int, t, n as nat, (depth - 1) as nat)
                    == spec_nbt_list_end(buf@, p as int, t, remaining as nat, (depth - 1) as nat),
            decreases remaining,
        {
            let e = match nbt_value_end(buf, p, t, depth - 1) {
                Some(e) => e,
                None => {
                    return None;
                },
            };
            if e <= p {
                return None;
            }
            p = e;
            remaining = remaining - 1;
        }
        return Some(p);
    }
    if tag == 10 {
        if depth == 0 {
            return None;
        }
        let mut p: usize = pos;
        loop
            invariant
                pos <= p <= buf@.len(),
                spec_nbt_compound_end(buf@, pos as int, (depth - 1) as nat)
                    == spec_nbt_compound_end(buf@, p as int, (depth - 1) as nat),
            decreases buf@.len() - p,
        {
            if p >= len {
                return None;
            }
            let entry_tag = buf[p];
            if entry_tag == 0 {
                return Some(p + 1);
            }
            let (nl, p1) = match read_u16(buf, p + 1) {
                Ok(x) => x,
                Err(_) => {
                    return None;
                },
            };
            if nl as usize > len - p1 {
                return None;
            }
            let vstart = p1 + nl as usize;
            let e = match nbt_value_end(buf, vstart, entry_tag, depth - 1) {
                Some(e) => e,
                None => {
                    return None;
                },
            };
            if e <= p {
                return None;
            }
            p = e;
        }
    }
    None
}

/// The byte extent of one whole structured-data blob at `pos`, computed by
/// a length-directed skip over the tag grammar; nothing is parsed and no
/// input can make it fail other than by returning the error.
pub fn nbt_blob_extent(buf: &[u8], pos: usize) -> (r: Result<usize, Error>)
    requires
        pos <= buf@.len(),
    ensures
        match r {
            Ok(end) => spec_nbt_end(buf@, pos as int) == Some(end as int) && pos < end
                <= buf@.len(),
            Err(e) => e == Error::Malformed && spec_nbt_end(buf@, pos as int) is None,
        },
{
    let (tag, p1) = match read_u8(buf, pos) {
        Ok(x) => x,
        Err(_) => {
            return Err(Error::Malformed);
        },
    };
    if tag != 0x0a {
        return Err(Error::Malformed);
    }
    let (nl, p2) = match read_u16(buf, p1) {
        Ok(x) => x,
        Err(_) => {
            return Err(Error::Malformed);
        },
    };
    if nl as usize > buf.len() - p2 {
        return Err(Error::Malformed);
    }
    match nbt_value_end(buf, p2 + nl as usize, 0x0a, MAX_NBT_DEPTH) {
        Some(end) => Ok(end),
        None => Err(Error::Malformed),
    }
}

/// An opaque structured-data blob, kept as its raw wire bytes.
#[derive(Debug, Clone)]
pub struct Nbt {
    pub raw: Vec<u8>,
}

/// Result of reading a structured-data blob at `pos`: the bytes that the
/// structured-data grammar assigns to one leading value.
pub open spec fn spec_read_nbt(bytes: Seq<u8>, pos: int) -> Result<(Seq<u8>, int), Error> {
    if !(0 <= pos <= bytes.len()) {
        Err(Error::NotEnoughBytes)
    } else {
        match spec_nbt_end(bytes, pos) {
            Some(end) => if pos <= end <= bytes.len() {
                Ok((bytes.subrange(pos, end), end))
            } else {
                Err(Error::Malformed)
            },
            None => Err(Error::Malformed),
        }
    }
}

impl Nbt {
    /// Reads one structured-data blob, keeping its raw bytes.
    pub fn try_read(buf: &[u8], pos: usize) -> (r: Result<(Nbt, usize), Error>)
        requires
            pos <= buf@.len(),
        ensures
            match r {
                Ok((v, end)) => spec_read_nbt(buf@, pos as int) == Ok::<_, Error>(
                    (v.raw@, end as int),
                ) && pos <= end <= buf@.len(),
                Err(e) => spec_read_nbt(buf@, pos as int) == Err::<(Seq<u8>, int), _>(e),
            },
    {
        match nbt_blob_extent(buf, pos) {
            Ok(end) => {
                let raw = copy_range(buf, pos, end);
                Ok((Nbt { raw }, end))
            },
            Err(e) => Err(e),
        }
    }

    /// Appends the blob's raw bytes unchanged.
    pub fn write(&self, buf: &mut Vec<u8>) -> (n: usize)
        ensures
            final(buf)@ == old(buf)@ + self.raw@,
            n == self.raw@.len(),
    {
        let n = self.raw.len();
        let mut copy = self.raw.clone();
        buf.append(&mut copy);
        n
    }
}

/// In a canonical VarInt encoding every byte but the last carries the
/// continuation bit, and the last does not.
pub proof fn lemma_var_u32_bytes_shape(n: u32)
    ensures
        forall|j: int|
            0 <= j < var_u32_bytes(n).len() - 1 ==> (#[trigger] var_u32_bytes(n)[j]) >= 0x80,
        var_u32_bytes(n)[var_u32_bytes(n).len() - 1] < 0x80,
    decreases n,
{
    if n >= 0x80 {
        lemma_var_u32_bytes_shape(n / 0x80);
        let enc = var_u32_bytes(n);
        let rest = var_u32_bytes(n / 0x80);
        assert(enc == seq![(n % 0x80 + 0x80) as u8] + rest);
        assert forall|j: int| 0 <= j < enc.len() - 1 implies (#[trigger] enc[j]) >= 0x80 by {
            if j > 0 {
                assert(enc[j] == rest[j - 1]);
            }
        }
        assert(enc[enc.len() - 1] == rest[rest.len() - 1]);
    }
}

/// Reading a VarInt over nothing but continuation bytes runs out of input
/// before it can go wrong.
pub proof fn lemma_var_u32_read_runs_out(bytes: Seq<u8>, pos: int, i: nat, acc: int)
    requires
        0 <= pos <= bytes.len(),
        forall|j: int| pos <= j < bytes.len() ==> (#[trigger] bytes[j]) >= 0x80,
        i + (bytes.len() - pos) <= 4,
    ensures
        spec_read_var_u32(bytes, pos, i, acc) == Err::<(u32, int), Error>(Error::NotEnoughBytes),
    decreases 5 - i,
{
    if pos < bytes.len() {
        lemma_var_u32_read_runs_out(
            bytes,
            pos + 1,
            i + 1,
            acc + (bytes[pos] % 0x80) * pow128(i),
        );
    }
}

} // verus!
