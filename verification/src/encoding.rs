//! Byte-level encodings behind the frame checksum: decimal rendering of
//! unsigned integers, and the CRC-32 of a byte sequence.

use vstd::prelude::*;

verus! {

/// ASCII code of the digit `0`.
pub const ASCII_ZERO: u8 = 48;

/// The decimal rendering of `n`, most significant digit first, without
/// leading zeros (`0` renders as a single digit), as ASCII bytes.
pub open spec fn decimal_digits(n: nat) -> Seq<u8>
    decreases n,
{
    if n < 10 {
        seq![(ASCII_ZERO + n) as u8]
    } else {
        decimal_digits(n / 10).push((ASCII_ZERO + n % 10) as u8)
    }
}

/// Different numbers render differently: the decimal rendering determines
/// the number.
pub proof fn lemma_decimal_digits_injective(n: nat, m: nat)
    requires
        decimal_digits(n) == decimal_digits(m),
    ensures
        n == m,
    decreases n,
{
    lemma_decimal_digits_len(n);
    lemma_decimal_digits_len(m);
    if n < 10 && m < 10 {
        assert(decimal_digits(n)[0] == decimal_digits(m)[0]);
        assert(decimal_digits(n)[0] == (ASCII_ZERO + n) as u8);
        assert(decimal_digits(m)[0] == (ASCII_ZERO + m) as u8);
    } else if n < 10 || m < 10 {
        assert(decimal_digits(n).len() == decimal_digits(m).len());
    } else {
        let dn = decimal_digits(n);
        let dm = decimal_digits(m);
        assert(dn.last() == dm.last());
        assert(dn.last() == (ASCII_ZERO + n % 10) as u8);
        assert(dm.last() == (ASCII_ZERO + m % 10) as u8);
        assert(n % 10 == m % 10);
        assert(dn.drop_last() =~= decimal_digits(n / 10));
        assert(dm.drop_last() =~= decimal_digits(m / 10));
        lemma_decimal_digits_injective(n / 10, m / 10);
        assert(n == 10 * (n / 10) + n % 10);
        assert(m == 10 * (m / 10) + m % 10);
    }
}

/// A number below 10 renders as one digit, any other as at least two.
pub proof fn lemma_decimal_digits_len(n: nat)
    ensures
        n < 10 ==> decimal_digits(n).len() == 1,
        n >= 10 ==> decimal_digits(n).len() >= 2,
    decreases n,
{
    if n >= 10 {
        lemma_decimal_digits_len(n / 10);
    }
}

/// Appends the decimal rendering of `n` to `out`.
pub fn push_decimal(out: &mut Vec<u8>, n: u64)
    ensures
        final(out)@ == old(out)@ + decimal_digits(n as nat),
    decreases n,
{
    if n >= 10 {
        push_decimal(out, n / 10);
    }
    let digit: u8 = (n % 10) as u8;
    out.push(ASCII_ZERO + digit);
    proof {
        if n >= 10 {
            assert(old(out)@ + decimal_digits(n as nat) =~= (old(out)@ + decimal_digits(
                (n / 10) as nat,
            )).push((ASCII_ZERO + n % 10) as u8));
        } else {
            assert(old(out)@ + decimal_digits(n as nat) =~= old(out)@.push(
                (ASCII_ZERO + n) as u8,
            ));
        }
    }
}

/// The character of the decimal digit `d`.
pub open spec fn digit_char(d: nat) -> char {
    if d == 0 {
        '0'
    } else if d == 1 {
        '1'
    } else if d == 2 {
        '2'
    } else if d == 3 {
        '3'
    } else if d == 4 {
        '4'
    } else if d == 5 {
        '5'
    } else if d == 6 {
        '6'
    } else if d == 7 {
        '7'
    } else if d == 8 {
        '8'
    } else {
        '9'
    }
}

/// The decimal rendering of `n` as text, most significant digit first,
/// without leading zeros.
pub open spec fn decimal_text(n: nat) -> Seq<char>
    decreases n,
{
    if n < 10 {
        seq![digit_char(n)]
    } else {
        decimal_text(n / 10).push(digit_char(n % 10))
    }
}

/// The text of the decimal digit `d`.
fn digit_str(d: u64) -> (s: &'static str)
    requires
        d < 10,
    ensures
        s@ == seq![digit_char(d as nat)],
{
    proof {
        reveal_strlit("0");
        reveal_strlit("1");
        reveal_strlit("2");
        reveal_strlit("3");
        reveal_strlit("4");
        reveal_strlit("5");
        reveal_strlit("6");
        reveal_strlit("7");
        reveal_strlit("8");
        reveal_strlit("9");
    }
    if d == 0 {
        "0"
    } else if d == 1 {
        "1"
    } else if d == 2 {
        "2"
    } else if d == 3 {
        "3"
    } else if d == 4 {
        "4"
    } else if d == 5 {
        "5"
    } else if d == 6 {
        "6"
    } else if d == 7 {
        "7"
    } else if d == 8 {
        "8"
    } else {
        "9"
    }
}

/// Appends the decimal rendering of `n` to `out`.
pub fn push_decimal_text(out: &mut String, n: u64)
    ensures
        final(out)@ == old(out)@ + decimal_text(n as nat),
    decreases n,
{
    if n >= 10 {
        push_decimal_text(out, n / 10);
    }
    out.append(digit_str(n % 10));
    proof {
        if n >= 10 {
            assert(old(out)@ + decimal_text(n as nat) =~= (old(out)@ + decimal_text(
                (n / 10) as nat,
            )).push(digit_char((n % 10) as nat)));
        } else {
            assert(old(out)@ + decimal_text(n as nat) =~= old(out)@ + seq![digit_char(n as nat)]);
        }
    }
}

/// Whether the IEEE-754 double with bit pattern `bits` is a NaN: all
/// exponent bits set and a nonzero fraction.
pub open spec fn f64_is_nan(bits: u64) -> bool {
    (bits as nat / 0x10_0000_0000_0000) % 0x800 == 0x7ff && bits as nat % 0x10_0000_0000_0000 != 0
}

/// Whether the double with bit pattern `bits` is +0.0 or -0.0.
pub open spec fn f64_is_zero(bits: u64) -> bool {
    bits as nat % 0x8000_0000_0000_0000 == 0
}

/// Whether two doubles, given by their bit patterns, compare equal with
/// `==`: neither is a NaN, and they have the same bits or are both zeros.
pub open spec fn f64_bits_equal(a: u64, b: u64) -> bool {
    !f64_is_nan(a) && !f64_is_nan(b) && (a == b || (f64_is_zero(a) && f64_is_zero(b)))
}

/// Compares two doubles, given by their bit patterns, as `==` on `f64`
/// does.
pub fn float_bits_eq(a: u64, b: u64) -> (r: bool)
    ensures
        r == f64_bits_equal(a, b),
{
    proof {
        assert(((a >> 52u64) & 0x7ff) == (a / 0x10_0000_0000_0000u64) % 0x800) by (bit_vector);
        assert(((b >> 52u64) & 0x7ff) == (b / 0x10_0000_0000_0000u64) % 0x800) by (bit_vector);
        assert((a & 0xf_ffff_ffff_ffffu64) == a % 0x10_0000_0000_0000u64) by (bit_vector);
        assert((b & 0xf_ffff_ffff_ffffu64) == b % 0x10_0000_0000_0000u64) by (bit_vector);
        assert((a & 0x7fff_ffff_ffff_ffffu64) == a % 0x8000_0000_0000_0000u64) by (bit_vector);
        assert((b & 0x7fff_ffff_ffff_ffffu64) == b % 0x8000_0000_0000_0000u64) by (bit_vector);
    }
    let a_nan = ((a >> 52u64) & 0x7ff) == 0x7ff && (a & 0xf_ffff_ffff_ffffu64) != 0;
    let b_nan = ((b >> 52u64) & 0x7ff) == 0x7ff && (b & 0xf_ffff_ffff_ffffu64) != 0;
    let both_zero = (a & 0x7fff_ffff_ffff_ffffu64) == 0 && (b & 0x7fff_ffff_ffff_ffffu64) == 0;
    !a_nan && !b_nan && (a == b || both_zero)
}

/// The reflected CRC-32 (IEEE 802.3) generator polynomial.
pub const CRC32_POLY: u32 = 0xEDB8_8320;

/// One bit round of the reflected CRC-32 register: shift right, and fold
/// the polynomial in when the bit shifted out was set.
pub open spec fn crc32_bit(reg: u32) -> u32 {
    if reg & 1 == 1 {
        (reg >> 1) ^ CRC32_POLY
    } else {
        reg >> 1
    }
}

/// `n` bit rounds of the register.
pub open spec fn crc32_bits(reg: u32, n: nat) -> u32
    decreases n,
{
    if n == 0 {
        reg
    } else {
        crc32_bit(crc32_bits(reg, (n - 1) as nat))
    }
}

/// The register after taking in one byte: xor it in, then eight bit rounds.
pub open spec fn crc32_byte(reg: u32, byte: u8) -> u32 {
    crc32_bits(reg ^ (byte as u32), 8)
}

/// The register after taking in `data`, starting from all ones.
pub open spec fn crc32_register(data: Seq<u8>) -> u32
    decreases data.len(),
{
    if data.len() == 0 {
        0xFFFF_FFFF
    } else {
        crc32_byte(crc32_register(data.drop_last()), data.last())
    }
}

/// The CRC-32 (IEEE 802.3, as in zlib and Ethernet) of `data`: the final
/// register with all bits inverted.
pub open spec fn crc32(data: Seq<u8>) -> u32 {
    crc32_register(data) ^ 0xFFFF_FFFF
}

/// Computes the CRC-32 of `data`.
pub fn crc32_checksum(data: &[u8]) -> (crc: u32)
    ensures
        crc == crc32(data@),
{
    let mut reg: u32 = 0xFFFF_FFFF;
    let mut i: usize = 0;
    while i < data.len()
        invariant
            i <= data.len(),
            reg == crc32_register(data@.take(i as int)),
        decreases data.len() - i,
    {
        proof {
            assert(data@.take(i + 1).drop_last() =~= data@.take(i as int));
        }
        let start = reg ^ (data[i] as u32);
        let mut bits = start;
        let mut k: u32 = 0;
        while k < 8
            invariant
                k <= 8,
                bits == crc32_bits(start, k as nat),
            decreases 8 - k,
        {
            if bits & 1 == 1 {
                bits = (bits >> 1) ^ CRC32_POLY;
            } else {
                bits = bits >> 1;
            }
            k = k + 1;
        }
        reg = bits;
        i = i + 1;
    }
    proof {
        assert(data@.take(data.len() as int) =~= data@);
    }
    reg ^ 0xFFFF_FFFF
}

} // verus!
