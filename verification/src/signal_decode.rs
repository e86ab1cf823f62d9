//! Bit-exact extraction of a signal's raw value from a CAN payload.

use vstd::prelude::*;
use vstd::arithmetic::power2::{pow2, lemma_pow2_pos, lemma_pow2_unfold, lemma_pow2_strictly_increases, lemma2_to64, lemma2_to64_rest};
use vstd::bits::{low_bits_mask, lemma_u64_shr_is_div, lemma_u64_shl_is_mul, lemma_u64_pow2_no_overflow, lemma_u64_low_bits_mask_is_mod};

verus! {

/// Order in which a signal's bytes are laid out in the payload.
#[derive(Clone, Copy, Debug, PartialEq, Eq, Structural)]
pub enum ByteOrder {
    LittleEndian,
    BigEndian,
}

/// How the extracted bits are read as a number.
#[derive(Clone, Copy, Debug, PartialEq, Eq, Structural)]
pub enum ValueType {
    Signed,
    Unsigned,
    Float,
}

/// Number with the bytes of `s` taken least significant first.
pub open spec fn le_bytes_value(s: Seq<u8>) -> nat
    decreases s.len(),
{
    if s.len() == 0 {
        0
    } else {
        (s[0] + 256 * le_bytes_value(s.drop_first())) as nat
    }
}

/// Number with the bytes of `s` taken most significant first.
pub open spec fn be_bytes_value(s: Seq<u8>) -> nat
    decreases s.len(),
{
    if s.len() == 0 {
        0
    } else {
        (be_bytes_value(s.drop_last()) * 256 + s.last()) as nat
    }
}

/// 256 to the power `k`.
pub open spec fn pow256(k: nat) -> nat
    decreases k,
{
    if k == 0 {
        1
    } else {
        256 * pow256((k - 1) as nat)
    }
}

/// Number of whole bytes that hold `length` bits.
pub open spec fn byte_span(length: u32) -> int {
    (length + 7) / 8
}

/// The signal's bytes lie inside a payload of `data_len` bytes.
pub open spec fn signal_in_range(start_bit: u32, length: u32, data_len: int) -> bool {
    start_bit / 8 + byte_span(length) <= data_len
}

/// Extraction is defined (it neither overflows a width nor shifts past 64 bits).
pub open spec fn extraction_defined(start_bit: u32, length: u32, value_type: ValueType, data_len: int) -> bool {
    &&& length + 7 <= u32::MAX
    &&& signal_in_range(start_bit, length, data_len) ==> {
        &&& length < 64
        &&& (value_type == ValueType::Signed ==> length >= 1)
    }
}

/// The bytes that hold the signal.
pub open spec fn signal_bytes(start_bit: u32, length: u32, data: Seq<u8>) -> Seq<u8> {
    data.subrange((start_bit / 8) as int, start_bit / 8 + byte_span(length))
}

/// The unsigned bit field: the signal's bytes read in `order`, shifted right by the bit
/// offset inside the first byte and cut to `length` bits.
pub open spec fn raw_field(start_bit: u32, length: u32, order: ByteOrder, data: Seq<u8>) -> nat {
    let bytes = signal_bytes(start_bit, length, data);
    let whole = match order {
        ByteOrder::LittleEndian => le_bytes_value(bytes),
        ByteOrder::BigEndian => be_bytes_value(bytes),
    };
    (whole / pow2((start_bit % 8) as nat)) % pow2(length as nat)
}

/// The field read as a number: two's complement of `length` bits for signed signals.
pub open spec fn decoded_value(
    start_bit: u32,
    length: u32,
    order: ByteOrder,
    value_type: ValueType,
    data: Seq<u8>,
) -> int {
    let raw = raw_field(start_bit, length, order, data);
    match value_type {
        ValueType::Signed => if raw >= pow2((length - 1) as nat) {
            raw - pow2(length as nat)
        } else {
            raw as int
        },
        _ => raw as int,
    }
}

/// A signal whose bits fit in one byte's span reads the same in either byte order: the
/// bits of byte `start_bit / 8` from bit `start_bit % 8` on, `length` of them.
pub proof fn lemma_raw_field_one_byte(start_bit: u32, length: u32, data: Seq<u8>)
    requires
        1 <= length <= 8,
        signal_in_range(start_bit, length, data.len() as int),
    ensures
        raw_field(start_bit, length, ByteOrder::LittleEndian, data)
            == (data[(start_bit / 8) as int] as nat / pow2((start_bit % 8) as nat)) % pow2(length as nat),
        raw_field(start_bit, length, ByteOrder::BigEndian, data)
            == (data[(start_bit / 8) as int] as nat / pow2((start_bit % 8) as nat)) % pow2(length as nat),
{
    let b = signal_bytes(start_bit, length, data);
    assert(byte_span(length) == 1);
    assert(b.len() == 1);
    assert(b[0] == data[(start_bit / 8) as int]);
    assert(b.drop_first().len() == 0);
    assert(b.drop_last().len() == 0);
    assert(le_bytes_value(b.drop_first()) == 0);
    assert(be_bytes_value(b.drop_last()) == 0);
    assert(le_bytes_value(b) == b[0]);
    assert(be_bytes_value(b) == b.last());
}

/// A signal whose bits span two bytes: the little-endian field takes the first byte as the
/// low one, the big-endian field as the high one, and either is shifted right by
/// `start_bit % 8` and cut to `length` bits.
pub proof fn lemma_raw_field_two_bytes(start_bit: u32, length: u32, data: Seq<u8>)
    requires
        9 <= length <= 16,
        signal_in_range(start_bit, length, data.len() as int),
    ensures
        raw_field(start_bit, length, ByteOrder::LittleEndian, data)
            == ((data[(start_bit / 8) as int] + 256 * data[start_bit / 8 + 1]) as nat
                / pow2((start_bit % 8) as nat)) % pow2(length as nat),
        raw_field(start_bit, length, ByteOrder::BigEndian, data)
            == ((256 * data[(start_bit / 8) as int] + data[start_bit / 8 + 1]) as nat
                / pow2((start_bit % 8) as nat)) % pow2(length as nat),
{
    let b = signal_bytes(start_bit, length, data);
    assert(byte_span(length) == 2);
    assert(b.len() == 2);
    assert(b[0] == data[(start_bit / 8) as int]);
    assert(b[1] == data[start_bit / 8 + 1]);
    let t = b.drop_first();
    assert(t.len() == 1 && t[0] == b[1]);
    assert(t.drop_first().len() == 0);
    assert(le_bytes_value(t.drop_first()) == 0);
    assert(le_bytes_value(t) == b[1]);
    assert(le_bytes_value(b) == b[0] + 256 * b[1]);
    let h = b.drop_last();
    assert(h.len() == 1 && h[0] == b[0] && h.last() == b[0]);
    assert(h.drop_last().len() == 0);
    assert(be_bytes_value(h.drop_last()) == 0);
    assert(be_bytes_value(h) == b[0]);
    assert(be_bytes_value(b) == 256 * b[0] + b[1]);
}

/// A signed signal reads as the `length`-bit two's complement of its field: a number in
/// `[-2^(length-1), 2^(length-1))` that equals the field or the field less `2^length`; any
/// other signal reads as the field itself, a number in `[0, 2^length)`.
pub proof fn lemma_decoded_value_range(
    start_bit: u32,
    length: u32,
    order: ByteOrder,
    value_type: ValueType,
    data: Seq<u8>,
)
    requires
        1 <= length,
    ensures
        ({
            let raw = raw_field(start_bit, length, order, data);
            let v = decoded_value(start_bit, length, order, value_type, data);
            &&& 0 <= raw < pow2(length as nat)
            &&& value_type == ValueType::Signed ==> {
                &&& -pow2((length - 1) as nat) <= v < pow2((length - 1) as nat)
                &&& (v == raw || v + pow2(length as nat) == raw)
            }
            &&& value_type != ValueType::Signed ==> v == raw
        }),
{
    lemma_pow2_pos(length as nat);
    lemma_pow2_unfold(length as nat);
}

proof fn lemma_pow256_bound(k: nat)
    requires
        k <= 8,
    ensures
        pow256(k) <= 0x1_0000_0000_0000_0000,
{
    reveal_with_fuel(pow256, 9);
}

/// Reads `n` bytes from `start` most significant first.
fn read_be_bytes(data: &[u8], start: usize, n: usize) -> (r: u64)
    requires
        n <= 8,
        start + n <= data.len(),
    ensures
        r as nat == be_bytes_value(data@.subrange(start as int, start + n)),
{
    let mut raw: u64 = 0;
    let mut i: usize = 0;
    while i < n
        invariant
            i <= n <= 8,
            start + n <= data.len(),
            raw as nat == be_bytes_value(data@.subrange(start as int, start + i)),
            raw < pow256(i as nat),
        decreases n - i,
    {
        proof {
            lemma_pow256_bound((i + 1) as nat);
            assert(data@.subrange(start as int, start + i + 1).drop_last() =~= data@.subrange(
                start as int,
                start + i,
            ));
        }
        let b = data[start + i];
        assert(raw * 256 + b < 256 * pow256(i as nat)) by (nonlinear_arith)
            requires
                raw < pow256(i as nat),
                b < 256,
        ;
        raw = raw * 256 + b as u64;
        i = i + 1;
    }
    raw
}

/// Reads `n` bytes from `start` least significant first.
fn read_le_bytes(data: &[u8], start: usize, n: usize) -> (r: u64)
    requires
        n <= 8,
        start + n <= data.len(),
    ensures
        r as nat == le_bytes_value(data@.subrange(start as int, start + n)),
{
    let mut raw: u64 = 0;
    let mut j: usize = n;
    while j > 0
        invariant
            j <= n <= 8,
            start + n <= data.len(),
            raw as nat == le_bytes_value(data@.subrange(start + j, start + n)),
            raw < pow256((n - j) as nat),
        decreases j,
    {
        proof {
            lemma_pow256_bound((n - j + 1) as nat);
            assert(data@.subrange(start + j - 1, start + n).drop_first() =~= data@.subrange(
                start + j,
                start + n,
            ));
        }
        let b = data[start + j - 1];
        assert(b + 256 * raw < 256 * pow256((n - j) as nat)) by (nonlinear_arith)
            requires
                raw < pow256((n - j) as nat),
                b < 256,
        ;
        raw = b as u64 + 256 * raw;
        j = j - 1;
    }
    raw
}

/// Extracts the signal's value from `data`: `None` when its bytes do not fit in `data`.
pub fn extract_raw_value(
    data: &[u8],
    start_bit: u32,
    length: u32,
    order: ByteOrder,
    value_type: ValueType,
) -> (r: Option<i64>)
    requires
        extraction_defined(start_bit, length, value_type, data@.len() as int),
    ensures
        r is None <==> !signal_in_range(start_bit, length, data@.len() as int),
        r matches Some(v) ==> v as int == decoded_value(start_bit, length, order, value_type, data@),
{
    let start_byte = (start_bit / 8) as usize;
    let start_bit_in_byte = start_bit % 8;
    let bytes_needed = (length + 7) / 8;
    if start_byte + bytes_needed as usize > data.len() {
        return None;
    }
    let n = bytes_needed as usize;
    let whole: u64 = match order {
        ByteOrder::LittleEndian => read_le_bytes(data, start_byte, n),
        ByteOrder::BigEndian => read_be_bytes(data, start_byte, n),
    };
    let ghost bytes = signal_bytes(start_bit, length, data@);
    assert(bytes == data@.subrange(start_byte as int, start_byte + n));
    proof {
        lemma_u64_pow2_no_overflow(length as nat);
        lemma_u64_shl_is_mul(1, length as u64);
        lemma_pow2_pos(length as nat);
    }
    let mask: u64 = (1u64 << length) - 1;
    let raw: u64 = (whole >> start_bit_in_byte) & mask;
    proof {
        lemma_u64_shr_is_div(whole, start_bit_in_byte as u64);
        assert(mask == low_bits_mask(length as nat) as u64);
        lemma_u64_low_bits_mask_is_mod(whole >> start_bit_in_byte, length as nat);
        lemma_pow2_pos(length as nat);
        assert(raw as nat == raw_field(start_bit, length, order, data@));
        assert(raw < pow2(length as nat));
        if length < 63 {
            lemma_pow2_strictly_increases(length as nat, 63);
        }
        lemma2_to64();
        lemma2_to64_rest();
        assert(raw <= 0x7fff_ffff_ffff_ffff);
    }
    match value_type {
        ValueType::Signed => {
            let sign_bit: u64 = 1u64 << (length - 1);
            proof {
                lemma_u64_pow2_no_overflow((length - 1) as nat);
                lemma_u64_shl_is_mul(1, (length - 1) as u64);
                lemma_pow2_unfold(length as nat);
            }
            if raw >= sign_bit {
                let v: i128 = (raw as i128) - ((mask as i128) + 1);
                Some(v as i64)
            } else {
                Some(raw as i64)
            }
        },
        ValueType::Unsigned => Some(raw as i64),
        ValueType::Float => Some(raw as i64),
    }
}

} // verus!
