//! The container's variable-length integer.
//!
//! An integer is written most significant digit first. The first byte keeps
//! its high `k` bits as tag bits and one more bit, just below them, as the
//! continuation flag; its remaining `7 - k` bits are the leading digit. With
//! `k > 0` the top bit is the sign. Every further byte carries seven bits of
//! the magnitude and, in its top bit, the flag that another byte follows.
use vstd::prelude::*;
use crate::utils::error::DiffError;

verus! {

/// An integer decoded from the container.
#[derive(Clone, Copy, Debug, PartialEq, Eq, Structural)]
pub struct VarInt(pub i64);

/// The largest magnitude a [`VarInt`] holds.
pub const MAX_MAGNITUDE: u64 = 0x7fff_ffff_ffff_ffff;

/// How many values the digit in the first byte can take with `k` tag bits,
/// which is also the weight of the continuation flag in that byte.
pub open spec fn first_modulus(k: u8) -> int {
    if k == 0 {
        128
    } else if k == 1 {
        64
    } else if k == 2 {
        32
    } else if k == 3 {
        16
    } else if k == 4 {
        8
    } else if k == 5 {
        4
    } else if k == 6 {
        2
    } else {
        1
    }
}

/// The digit that the first byte holds.
pub open spec fn first_digit(b: u8, k: u8) -> int {
    b as int % first_modulus(k)
}

/// Whether the first byte announces further bytes.
pub open spec fn first_continues(b: u8, k: u8) -> bool {
    (b as int / first_modulus(k)) % 2 == 1
}

/// Whether the first byte marks the value as negative.
pub open spec fn first_negative(b: u8, k: u8) -> bool {
    k > 0 && b >= 128
}

/// The magnitude reached after the continuation bytes that start at `pos`,
/// given the magnitude `acc` read so far, and the position behind the last of
/// them.
pub open spec fn spec_varint_tail(s: Seq<u8>, pos: int, acc: int) -> Result<(int, int), DiffError>
    decreases s.len() - pos,
{
    if pos < 0 || pos >= s.len() {
        Err(DiffError::UnexpectedEof)
    } else {
        let next = acc * 128 + s[pos] as int % 128;
        if s[pos] >= 128 {
            spec_varint_tail(s, pos + 1, next)
        } else {
            Ok((next, pos + 1))
        }
    }
}

/// The magnitude of the integer written at `pos`, whatever its size, and the
/// position behind it.
pub open spec fn spec_varint_magnitude(s: Seq<u8>, pos: int, k: u8) -> Result<
    (int, int),
    DiffError,
> {
    if pos < 0 || pos >= s.len() {
        Err(DiffError::UnexpectedEof)
    } else if first_continues(s[pos], k) {
        spec_varint_tail(s, pos + 1, first_digit(s[pos], k))
    } else {
        Ok((first_digit(s[pos], k), pos + 1))
    }
}

/// The integer written at `pos` with `k` tag bits and the position behind it.
///
/// An encoding cut short by the end of the input is `UnexpectedEof`; a complete
/// one whose magnitude exceeds [`MAX_MAGNITUDE`] is `VarIntOverflow`.
pub open spec fn spec_read_varint(s: Seq<u8>, pos: int, k: u8) -> Result<(int, int), DiffError> {
    match spec_varint_magnitude(s, pos, k) {
        Err(e) => Err(e),
        Ok((magnitude, end)) => if magnitude > MAX_MAGNITUDE {
            Err(DiffError::VarIntOverflow)
        } else if first_negative(s[pos], k) {
            Ok((-magnitude, end))
        } else {
            Ok((magnitude, end))
        },
    }
}

/// The first byte of an encoding.
pub open spec fn head_byte(digit: int, continues: bool, negative: bool, k: u8) -> u8 {
    (digit + if continues {
        first_modulus(k)
    } else {
        0
    } + if negative {
        128int
    } else {
        0
    }) as u8
}

/// The bytes that carry the magnitude `m` when at least one more byte follows
/// them: each has its continuation flag set.
pub open spec fn spec_encode_open(m: int, k: u8, negative: bool) -> Seq<u8>
    decreases m,
{
    if m < first_modulus(k) {
        seq![head_byte(m, true, negative, k)]
    } else {
        spec_encode_open(m / 128, k, negative).push((128 + m % 128) as u8)
    }
}

/// The shortest encoding of `x` with `k` tag bits.
pub open spec fn spec_encode_varint(x: int, k: u8) -> Seq<u8> {
    let m = if x < 0 {
        -x
    } else {
        x
    };
    if m < first_modulus(k) {
        seq![head_byte(m, false, x < 0, k)]
    } else {
        spec_encode_open(m / 128, k, x < 0).push((m % 128) as u8)
    }
}

/// Whether `x` can be written with `k` tag bits: it has a magnitude of at most
/// [`MAX_MAGNITUDE`], and a sign only where there is a bit for it.
pub open spec fn encodable(x: int, k: u8) -> bool {
    &&& k <= 7
    &&& -(MAX_MAGNITUDE as int) <= x <= MAX_MAGNITUDE as int
    &&& k == 0 ==> x >= 0
}

/// The continuation bytes only add to the magnitude, and they end within the
/// input.
pub proof fn lemma_tail_range(s: Seq<u8>, pos: int, acc: int)
    requires
        0 <= acc,
    ensures
        spec_varint_tail(s, pos, acc) matches Ok((magnitude, end)) ==> acc <= magnitude && pos
            < end <= s.len(),
    decreases s.len() - pos,
{
    if 0 <= pos < s.len() && s[pos] >= 128 {
        lemma_tail_range(s, pos + 1, acc * 128 + s[pos] as int % 128);
    }
}

/// An integer that was read lies between the bounds of [`MAX_MAGNITUDE`], is
/// not negative where there is no sign bit, and ends within the input.
pub proof fn lemma_varint_range(s: Seq<u8>, pos: int, k: u8)
    ensures
        spec_read_varint(s, pos, k) matches Ok((value, end)) ==> -(MAX_MAGNITUDE as int) <= value
            <= MAX_MAGNITUDE as int && (k == 0 ==> value >= 0) && 0 <= pos < end <= s.len(),
{
    if 0 <= pos < s.len() {
        if first_continues(s[pos], k) {
            lemma_tail_range(s, pos + 1, first_digit(s[pos], k));
        }
    }
}

proof fn lemma_first_byte_bits(b: u8, k: u8)
    requires
        k <= 7,
    ensures
        (b & (((1u8 << (7u8 - k) as u8) - 1) as u8)) as int == first_digit(b, k),
        (b & (1u8 << (7u8 - k) as u8) != 0) == first_continues(b, k),
        (b & 0x80 != 0) == (b >= 128),
        0 <= first_digit(b, k) < first_modulus(k),
        (1u8 << (7u8 - k) as u8) as int == first_modulus(k),
{
    let f: u8 = 1u8 << ((7u8 - k) as u8);
    assert(f == (if k == 0 {
        128u8
    } else if k == 1 {
        64u8
    } else if k == 2 {
        32u8
    } else if k == 3 {
        16u8
    } else if k == 4 {
        8u8
    } else if k == 5 {
        4u8
    } else if k == 6 {
        2u8
    } else {
        1u8
    })) by (bit_vector)
        requires
            k <= 7,
            f == 1u8 << ((7u8 - k) as u8),
    ;
    assert(f as int == first_modulus(k));
    assert(b & ((f - 1) as u8) == b % f && (b & f != 0) == ((b / f) % 2 == 1)) by (bit_vector)
        requires
            f == 128 || f == 64 || f == 32 || f == 16 || f == 8 || f == 4 || f == 2 || f == 1,
    ;
    assert((b & 0x80 != 0) == (b >= 128)) by (bit_vector);
}

proof fn lemma_tail_byte_bits(b: u8)
    ensures
        (b & 0x7f) as int == b as int % 128,
        (b & 0x80 == 0) == (b < 128),
{
    assert((b & 0x7f) == b % 128 && (b & 0x80 == 0) == (b < 128)) by (bit_vector);
}

/// Reads the integer written at `pos` of `data` with `k_tag_bit` tag bits.
/// Returns it with the position behind its last byte.
pub fn decode_varint(data: &[u8], pos: usize, k_tag_bit: u8) -> (r: Result<
    (VarInt, usize),
    DiffError,
>)
    requires
        k_tag_bit <= 7,
    ensures
        match spec_read_varint(data@, pos as int, k_tag_bit) {
            Ok((value, end)) => r matches Ok((x, e)) && x@ == value && e == end && pos < end
                <= data@.len() && -(MAX_MAGNITUDE as int) <= value <= MAX_MAGNITUDE as int && (
            k_tag_bit == 0 ==> value >= 0),
            Err(e) => r == Err::<(VarInt, usize), DiffError>(e),
        },
{
    if pos >= data.len() {
        return Err(DiffError::UnexpectedEof);
    }
    let first: u8 = data[pos];
    let flag: u8 = 1u8 << (7u8 - k_tag_bit);
    proof {
        lemma_first_byte_bits(first, k_tag_bit);
    }
    let mut acc: u64 = (first & (flag - 1)) as u64;
    let negative: bool = k_tag_bit > 0 && (first & 0x80) != 0;
    let mut cur: usize = pos + 1;
    if first & flag != 0 {
        let ghost mut magnitude: int = acc as int;
        let mut fits: bool = true;
        loop
            invariant_except_break
                spec_varint_magnitude(data@, pos as int, k_tag_bit) == spec_varint_tail(
                    data@,
                    cur as int,
                    magnitude,
                ),
            invariant
                pos < cur <= data@.len(),
                0 <= magnitude,
                fits ==> magnitude == acc && acc <= MAX_MAGNITUDE,
                !fits ==> magnitude > MAX_MAGNITUDE,
            ensures
                pos < cur <= data@.len(),
                spec_varint_magnitude(data@, pos as int, k_tag_bit) == Ok::<(int, int), DiffError>(
                    (magnitude, cur as int),
                ),
                fits ==> magnitude == acc && acc <= MAX_MAGNITUDE,
                !fits ==> magnitude > MAX_MAGNITUDE,
            decreases data@.len() - cur,
        {
            if cur >= data.len() {
                return Err(DiffError::UnexpectedEof);
            }
            let b: u8 = data[cur];
            proof {
                lemma_tail_byte_bits(b);
                magnitude = magnitude * 128 + b as int % 128;
            }
            let digit: u64 = (b & 0x7f) as u64;
            if fits && acc <= (MAX_MAGNITUDE - digit) / 128 {
                acc = acc * 128 + digit;
            } else {
                fits = false;
            }
            cur = cur + 1;
            if b & 0x80 == 0 {
                break ;
            }
        }
        if !fits {
            return Err(DiffError::VarIntOverflow);
        }
    }
    let value: i64 = if negative {
        -(acc as i64)
    } else {
        acc as i64
    };
    Ok((VarInt(value), cur))
}

fn encode_open(m: u64, k_tag_bit: u8, negative: bool, out: &mut Vec<u8>)
    requires
        k_tag_bit <= 7,
        k_tag_bit == 0 ==> !negative,
    ensures
        final(out)@ == old(out)@ + spec_encode_open(m as int, k_tag_bit, negative),
    decreases m,
{
    let flag: u8 = 1u8 << (7u8 - k_tag_bit);
    proof {
        lemma_first_byte_bits(0, k_tag_bit);
    }
    if m < flag as u64 {
        let sign: u8 = if negative {
            128
        } else {
            0
        };
        out.push(m as u8 + flag + sign);
    } else {
        encode_open(m / 128, k_tag_bit, negative, out);
        out.push(128 + (m % 128) as u8);
    }
}

impl VarInt {
    /// The value as a mathematical integer.
    pub open spec fn view(&self) -> int {
        self.0 as int
    }

    /// Writes `value` with `k_tag_bit` tag bits, in the fewest bytes.
    pub fn encode(value: i64, k_tag_bit: u8) -> (bytes: Vec<u8>)
        requires
            encodable(value as int, k_tag_bit),
        ensures
            bytes@ == spec_encode_varint(value as int, k_tag_bit),
    {
        let negative: bool = value < 0;
        let m: u64 = if negative {
            (-value) as u64
        } else {
            value as u64
        };
        let flag: u8 = 1u8 << (7u8 - k_tag_bit);
        proof {
            lemma_first_byte_bits(0, k_tag_bit);
        }
        let mut out: Vec<u8> = Vec::new();
        if m < flag as u64 {
            let sign: u8 = if negative {
                128
            } else {
                0
            };
            out.push(m as u8 + sign);
        } else {
            encode_open(m / 128, k_tag_bit, negative, &mut out);
            out.push((m % 128) as u8);
        }
        out
    }
}

/// What the first byte of an encoding gives back when it is read.
proof fn lemma_head_byte(digit: int, continues: bool, negative: bool, k: u8)
    requires
        k <= 7,
        k == 0 ==> !negative,
        0 <= digit < first_modulus(k),
    ensures
        first_digit(head_byte(digit, continues, negative, k), k) == digit,
        first_continues(head_byte(digit, continues, negative, k), k) == continues,
        first_negative(head_byte(digit, continues, negative, k), k) == negative,
        head_byte(digit, continues, negative, k) as int == digit + if continues {
            first_modulus(k)
        } else {
            0
        } + if negative {
            128int
        } else {
            0
        },
{
    let f = first_modulus(k);
    let c: int = if continues {
        1
    } else {
        0
    };
    let n: int = if negative {
        1
    } else {
        0
    };
    let v = digit + c * f + n * 128;
    assert(0 <= v < 256);
    assert(head_byte(digit, continues, negative, k) as int == v);
    if k == 0 {
        assert(v % 128 == digit && (v / 128) % 2 == c);
    } else if k == 1 {
        assert(v % 64 == digit && (v / 64) % 2 == c);
    } else if k == 2 {
        assert(v % 32 == digit && (v / 32) % 2 == c);
    } else if k == 3 {
        assert(v % 16 == digit && (v / 16) % 2 == c);
    } else if k == 4 {
        assert(v % 8 == digit && (v / 8) % 2 == c);
    } else if k == 5 {
        assert(v % 4 == digit && (v / 4) % 2 == c);
    } else if k == 6 {
        assert(v % 2 == digit && (v / 2) % 2 == c);
    } else {
        assert(v % 1 == digit && (v / 1) % 2 == c);
    }
}

/// Decoding skips over an open prefix: behind the bytes that carry `m` with
/// their flags set, the magnitude read so far is `m`.
proof fn lemma_decode_open(s: Seq<u8>, pos: int, m: int, k: u8, negative: bool)
    requires
        k <= 7,
        k == 0 ==> !negative,
        0 <= m,
        0 <= pos,
        pos + spec_encode_open(m, k, negative).len() <= s.len(),
        s.subrange(pos, pos + spec_encode_open(m, k, negative).len()) == spec_encode_open(
            m,
            k,
            negative,
        ),
    ensures
        spec_varint_magnitude(s, pos, k) == spec_varint_tail(
            s,
            pos + spec_encode_open(m, k, negative).len(),
            m,
        ),
        first_negative(s[pos], k) == negative,
        spec_encode_open(m, k, negative).len() >= 1,
    decreases m,
{
    let e = spec_encode_open(m, k, negative);
    if m < first_modulus(k) {
        assert(e.len() == 1);
        assert(s[pos] == e[0]);
        lemma_head_byte(m, true, negative, k);
    } else {
        let inner = spec_encode_open(m / 128, k, negative);
        assert(e == inner.push((128 + m % 128) as u8));
        assert(s.subrange(pos, pos + inner.len()) == inner) by {
            assert(s.subrange(pos, pos + inner.len()) =~= e.subrange(0, inner.len() as int));
            assert(e.subrange(0, inner.len() as int) =~= inner);
        }
        lemma_decode_open(s, pos, m / 128, k, negative);
        assert(s[pos + inner.len()] == e[inner.len() as int]);
    }
}

/// Decoding undoes encoding: where the shortest encoding of `x` stands at
/// `pos`, reading with the same number of tag bits gives `x` and stops right
/// behind it, whatever follows.
pub proof fn lemma_varint_round_trip(s: Seq<u8>, pos: int, x: int, k: u8)
    requires
        encodable(x, k),
        0 <= pos,
        pos + spec_encode_varint(x, k).len() <= s.len(),
        s.subrange(pos, pos + spec_encode_varint(x, k).len()) == spec_encode_varint(x, k),
    ensures
        spec_read_varint(s, pos, k) == Ok::<(int, int), DiffError>(
            (x, pos + spec_encode_varint(x, k).len()),
        ),
{
    let e = spec_encode_varint(x, k);
    let m = if x < 0 {
        -x
    } else {
        x
    };
    if m < first_modulus(k) {
        assert(e.len() == 1);
        assert(s[pos] == e[0]);
        lemma_head_byte(m, false, x < 0, k);
    } else {
        let inner = spec_encode_open(m / 128, k, x < 0);
        assert(e == inner.push((m % 128) as u8));
        assert(s.subrange(pos, pos + inner.len()) == inner) by {
            assert(s.subrange(pos, pos + inner.len()) =~= e.subrange(0, inner.len() as int));
            assert(e.subrange(0, inner.len() as int) =~= inner);
        }
        lemma_decode_open(s, pos, m / 128, k, x < 0);
        assert(s[pos + inner.len()] == e[inner.len() as int]);
    }
}

} // verus!
