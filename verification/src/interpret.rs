//! Lookup: running the asmap bytecode on a 128-bit address.
use vstd::prelude::*;
use vstd::arithmetic::power2::*;
use vstd::bits::*;
use vstd::std_specs::bits::{axiom_u32_trailing_ones, u32_trailing_ones};
use crate::validate::{check, valid_asmap};
use crate::totality::{
    lemma_accepted_state_steps, lemma_match_len_bounds, lemma_reaches_pending_target,
};
use crate::format::{
    asn_bit_sizes, be_value, bit_at, bits_of, byte_or_zero, dec_asn, dec_from, dec_jump,
    dec_match, dec_type, jump_bit_sizes, le_value, lemma_be_value_bound, lemma_dec_class,
    lemma_dec_from_agree, lemma_dec_from_bounds, lemma_dec_from_total, lemma_table_totals,
    match_bit_sizes, match_len, tail_total, Instruction, asn_sizes, jump_sizes, match_sizes,
    type_sizes,
};


verus! {

/// `u32::reverse_bits` mirrors the bit order: bit `j` of the result is bit `31 - j` of
/// the argument.
pub assume_specification[ u32::reverse_bits ](x: u32) -> (r: u32)
    ensures
        forall|j: u32| j < 32 ==> #[trigger] ((r >> j) & 1u32) == (x >> (31u32 - j) as u32) & 1u32,
;

/// Eight bytes read as a little-endian 64-bit number.
pub open spec fn le_u64(
    b0: u8,
    b1: u8,
    b2: u8,
    b3: u8,
    b4: u8,
    b5: u8,
    b6: u8,
    b7: u8,
) -> u64 {
    (b0 as u64) | ((b1 as u64) << 8u64) | ((b2 as u64) << 16u64) | ((b3 as u64) << 24u64) | ((
    b4 as u64) << 32u64) | ((b5 as u64) << 40u64) | ((b6 as u64) << 48u64) | ((b7 as u64) << 56u64)
}

/// Byte `i` of eight.
pub open spec fn pick(b0: u8, b1: u8, b2: u8, b3: u8, b4: u8, b5: u8, b6: u8, b7: u8, i: int) -> u8 {
    if i == 0 {
        b0
    } else if i == 1 {
        b1
    } else if i == 2 {
        b2
    } else if i == 3 {
        b3
    } else if i == 4 {
        b4
    } else if i == 5 {
        b5
    } else if i == 6 {
        b6
    } else {
        b7
    }
}

/// Bit `k` of `le_u64(..)` is bit `k % 8` of byte `k / 8`.
proof fn lemma_le_u64_bit(
    b0: u8,
    b1: u8,
    b2: u8,
    b3: u8,
    b4: u8,
    b5: u8,
    b6: u8,
    b7: u8,
    k: u64,
)
    requires
        k < 64,
    ensures
        ((le_u64(b0, b1, b2, b3, b4, b5, b6, b7) >> k) & 1u64 == 1u64) == ((pick(
            b0,
            b1,
            b2,
            b3,
            b4,
            b5,
            b6,
            b7,
            (k / 8) as int,
        ) >> ((k % 8) as u8)) & 1u8 == 1u8),
{
    let x = le_u64(b0, b1, b2, b3, b4, b5, b6, b7);
    assert(x & 0xffu64 == b0 as u64 && (x >> 8u64) & 0xffu64 == b1 as u64 && (x >> 16u64) & 0xffu64
        == b2 as u64 && (x >> 24u64) & 0xffu64 == b3 as u64 && (x >> 32u64) & 0xffu64 == b4 as u64
        && (x >> 40u64) & 0xffu64 == b5 as u64 && (x >> 48u64) & 0xffu64 == b6 as u64 && (x
        >> 56u64) & 0xffu64 == b7 as u64) by (bit_vector)
        requires
            x == le_u64(b0, b1, b2, b3, b4, b5, b6, b7),
    ;
    let base = (8 * (k / 8)) as u64;
    let j = (k % 8) as u64;
    assert(((x >> k) & 1u64 == 1u64) == ((((x >> base) & 0xffu64) >> j) & 1u64 == 1u64))
        by (bit_vector)
        requires
            k < 64,
            base + j == k,
            j < 8,
    ;
    let b = pick(b0, b1, b2, b3, b4, b5, b6, b7, (k / 8) as int);
    assert((x >> base) & 0xffu64 == b as u64) by {
        assert(x >> 0u64 == x) by (bit_vector);
    }
    assert(((b >> (j as u8)) & 1u8 == 1u8) == (((b as u64) >> j) & 1u64 == 1u64)) by (bit_vector)
        requires
            j < 8,
    ;
}

fn load_le_u64(b0: u8, b1: u8, b2: u8, b3: u8, b4: u8, b5: u8, b6: u8, b7: u8) -> (r: u64)
    ensures
        r == le_u64(b0, b1, b2, b3, b4, b5, b6, b7),
{
    (b0 as u64) | ((b1 as u64) << 8u64) | ((b2 as u64) << 16u64) | ((b3 as u64) << 24u64) | ((
    b4 as u64) << 32u64) | ((b5 as u64) << 40u64) | ((b6 as u64) << 48u64) | ((b7 as u64) << 56u64)
}

/// Masking `count` bits out of `raw >> off` keeps exactly bits `off..off + count` of `raw`.
proof fn lemma_window_bit(raw: u64, off: u64, count: u64, j: u32)
    requires
        off < 8,
        count <= 32,
        j < 32,
    ensures
        ({
            let r = ((raw >> off) & (((1u64 << count) - 1u64) as u64)) as u32;
            (((r >> j) & 1u32) == 1u32) == (j < count && (raw >> (off + j) as u64) & 1u64 == 1u64)
        }),
{
    let r = ((raw >> off) & (((1u64 << count) - 1u64) as u64)) as u32;
    assert((((r >> j) & 1u32) == 1u32) == (j < count && (raw >> (off + j) as u64) & 1u64 == 1u64))
        by (bit_vector)
        requires
            r == ((raw >> off) & (((1u64 << count) - 1u64) as u64)) as u32,
            off < 8,
            count <= 32,
            j < 32,
    ;
}

/// A 32-bit number whose bits are the stream bits `pos..pos + n` in order, and which has
/// no higher bits, is their little-endian value.
proof fn lemma_le_from_bits(x: u32, s: spec_fn(int) -> bool, pos: int, n: nat)
    requires
        n <= 32,
        forall|t: u32| t < 32 ==> (#[trigger] ((x >> t) & 1u32) == 1u32) == (t < n && s(pos + t)),
        n < 32 ==> x >> (n as u32) == 0,
    ensures
        x == le_value(s, pos, n),
    decreases n,
{
    if n == 0 {
        assert(x >> 0u32 == 0 ==> x == 0) by (bit_vector);
    } else {
        let y = x >> 1u32;
        assert forall|t: u32| t < 32 implies (#[trigger] ((y >> t) & 1u32) == 1u32) == (t < n - 1
            && s((pos + 1) + t)) by {
            if t < 31 {
                assert((x >> 1u32) >> t == x >> (t + 1) as u32) by (bit_vector)
                    requires
                        t < 31,
                ;
                assert((((x >> (t + 1) as u32) & 1u32) == 1u32) == ((t + 1) < n && s(
                    pos + (t + 1) as u32,
                )));
            } else {
                assert(((x >> 1u32) >> 31u32) & 1u32 == 0u32) by (bit_vector);
            }
        }
        if n < 32 {
            let m = n as u32;
            assert(1 <= m < 32 ==> (x >> 1u32) >> (m - 1) as u32 == x >> m) by (bit_vector);
        } else {
            assert((x >> 1u32) >> 31u32 == 0) by (bit_vector);
        }
        lemma_le_from_bits(y, s, pos + 1, (n - 1) as nat);
        assert(x == 2 * (x >> 1u32) + (x & 1u32)) by (bit_vector);
        assert((x & 1u32) == ((x >> 0u32) & 1u32)) by (bit_vector);
        assert((((x >> 0u32) & 1u32) == 1u32) == (0u32 < n && s(pos + 0u32)));
        assert((x & 1u32) == 0u32 || (x & 1u32) == 1u32) by (bit_vector);
    }
}

/// Read up to 32 bits of `data` starting at bit `bitpos`, least significant bit first;
/// bits past the end of `data` read as zero.
fn read_bits_le(bitpos: usize, data: &[u8], count: u8) -> (r: u32)
    requires
        count <= 32,
        count > 0 ==> bitpos / 8 <= data@.len(),
    ensures
        r == le_value(bits_of(data@), bitpos as int, count as nat),
        forall|j: u32|
            j < 32 ==> (#[trigger] ((r >> j) & 1u32) == 1u32) == (j < count && bit_at(
                data@,
                bitpos + j,
            )),
{
    if count == 0 {
        assert(forall|j: u32| j < 32 ==> #[trigger] ((0u32 >> j) & 1u32) == 0u32) by (bit_vector);
        return 0;
    }
    let byte_offset = bitpos / 8;
    let bit_offset = bitpos % 8;
    // At most five bytes are needed (bit offset up to 7 plus up to 32 bits); read eight
    // at once where the data has them, else the bytes that are left.
    let raw: u64 = if data.len() >= 8 && byte_offset <= data.len() - 8 {
        load_le_u64(
            data[byte_offset],
            data[byte_offset + 1],
            data[byte_offset + 2],
            data[byte_offset + 3],
            data[byte_offset + 4],
            data[byte_offset + 5],
            data[byte_offset + 6],
            data[byte_offset + 7],
        )
    } else {
        let mut buf = [0u8; 8];
        let avail = data.len() - byte_offset;
        let mut i: usize = 0;
        while i < avail
            invariant
                avail == data@.len() - byte_offset,
                byte_offset + avail == data@.len(),
                data@.len() <= usize::MAX,
                avail < 8,
                i <= avail,
                forall|k: int|
                    0 <= k < 8 ==> #[trigger] buf@[k] == if k < i {
                        data@[byte_offset + k]
                    } else {
                        0u8
                    },
            decreases avail - i,
        {
            buf[i] = data[byte_offset + i];
            i += 1;
        }
        load_le_u64(buf[0], buf[1], buf[2], buf[3], buf[4], buf[5], buf[6], buf[7])
    };
    let ghost bo = byte_offset as int;
    let ghost b0 = byte_or_zero(data@, bo);
    let ghost b1 = byte_or_zero(data@, bo + 1);
    let ghost b2 = byte_or_zero(data@, bo + 2);
    let ghost b3 = byte_or_zero(data@, bo + 3);
    let ghost b4 = byte_or_zero(data@, bo + 4);
    let ghost b5 = byte_or_zero(data@, bo + 5);
    let ghost b6 = byte_or_zero(data@, bo + 6);
    let ghost b7 = byte_or_zero(data@, bo + 7);
    assert(raw == le_u64(b0, b1, b2, b3, b4, b5, b6, b7));
    let shift = bit_offset as u64;
    let c = count as u64;
    assert(1u64 <= (1u64 << c) && (raw >> shift) & (((1u64 << c) - 1u64) as u64) <= 0xFFFF_FFFFu64)
        by (bit_vector)
        requires
            1 <= c <= 32,
            shift < 8,
    ;
    let mask = (1u64 << c) - 1;
    let r = ((raw >> shift) & mask) as u32;
    assert forall|j: u32| j < 32 implies (#[trigger] ((r >> j) & 1u32) == 1u32) == (j < count
        && bit_at(data@, bitpos + j)) by {
        lemma_window_bit(raw, shift, c, j);
        if j < count {
            let k = (shift + j) as u64;
            lemma_le_u64_bit(b0, b1, b2, b3, b4, b5, b6, b7, k);
            assert((bitpos + j) / 8 == bo + k / 8);
            assert((bitpos + j) % 8 == k % 8);
            assert(pick(b0, b1, b2, b3, b4, b5, b6, b7, (k / 8) as int) == byte_or_zero(
                data@,
                bo + k / 8,
            ));
        }
    }
    assert(c < 32 ==> r >> (c as u32) == 0) by (bit_vector)
        requires
            r == ((raw >> shift) & (((1u64 << c) - 1u64) as u64)) as u32,
            shift < 8,
            1 <= c <= 32,
    ;
    proof {
        lemma_le_from_bits(r, bits_of(data@), bitpos as int, count as nat);
    }
    r
}

/// A 32-bit number whose low `n` bits are the stream bits `pos..pos + n` in reverse
/// order, and which has no higher bits, is their big-endian value.
proof fn lemma_be_from_bits(x: u32, s: spec_fn(int) -> bool, pos: int, n: nat)
    requires
        n <= 32,
        forall|t: u32| t < n ==> (#[trigger] ((x >> t) & 1u32) == 1u32) == s(pos + n - 1 - t),
        n < 32 ==> x >> (n as u32) == 0,
    ensures
        x == be_value(s, pos, n),
    decreases n,
{
    if n == 0 {
        assert(x >> 0u32 == 0 ==> x == 0) by (bit_vector);
    } else {
        let y = x >> 1u32;
        assert forall|t: u32| t < n - 1 implies (#[trigger] ((y >> t) & 1u32) == 1u32) == s(
            pos + (n - 1) - 1 - t,
        ) by {
            assert(t < 31 ==> (x >> 1u32) >> t == x >> (t + 1) as u32) by (bit_vector);
            assert((((x >> (t + 1) as u32) & 1u32) == 1u32) == s(pos + n - 1 - (t + 1) as u32));
        }
        if n < 32 {
            let m = n as u32;
            assert(1 <= m < 32 ==> (x >> 1u32) >> (m - 1) as u32 == x >> m) by (bit_vector);
        } else {
            assert((x >> 1u32) >> 31u32 == 0) by (bit_vector);
        }
        lemma_be_from_bits(y, s, pos, (n - 1) as nat);
        assert(x == 2 * (x >> 1u32) + (x & 1u32)) by (bit_vector);
        assert((x & 1u32) == ((x >> 0u32) & 1u32)) by (bit_vector);
        assert((((x >> 0u32) & 1u32) == 1u32) == s(pos + n - 1 - 0u32));
        assert((x & 1u32) == 0u32 || (x & 1u32) == 1u32) by (bit_vector);
    }
}

/// The top `size` bits of a bit-reversed window of `size` stream bits are their
/// big-endian value.
proof fn lemma_reversed_window(raw: u32, rev: u32, size: u32, s: spec_fn(int) -> bool, q: int)
    requires
        1 <= size <= 31,
        forall|t: u32| t < 32 ==> (#[trigger] ((raw >> t) & 1u32) == 1u32) == (t < size && s(q + t)),
        forall|j: u32| j < 32 ==> #[trigger] ((rev >> j) & 1u32) == (raw >> (31u32 - j) as u32) & 1u32,
    ensures
        rev >> (32 - size) as u32 == be_value(s, q, size as nat),
{
    let v = rev >> (32 - size) as u32;
    assert forall|t: u32| t < size implies (#[trigger] ((v >> t) & 1u32) == 1u32) == s(
        q + size - 1 - t,
    ) by {
        let j = (32 - size + t) as u32;
        assert(((rev >> (32 - size) as u32) >> t) & 1u32 == (rev >> j) & 1u32) by (bit_vector)
            requires
                j == 32 - size + t,
                t < size <= 31,
        ;
        assert((rev >> j) & 1u32 == (raw >> (31u32 - j) as u32) & 1u32);
        let u = (31 - j) as u32;
        assert(u == size - 1 - t);
        assert((((raw >> u) & 1u32) == 1u32) == (u < size && s(q + u)));
    }
    assert((rev >> (32 - size) as u32) >> size == 0) by (bit_vector)
        requires
            1 <= size <= 31,
    ;
    lemma_be_from_bits(v, s, q, size as nat);
}

/// Decode a class-prefixed integer with bulk reads: all continuation bits at once,
/// then all value bits at once. Bits past the end of `data` read as zero, so the
/// result is that of the stream `bits_of(data@)` with no end in reach: an encoding
/// never spans more than `classes + 31` bits.
fn decode_bits(pos: &mut usize, data: &[u8], minval: u32, bit_sizes: &[u8]) -> (r: u32)
    requires
        1 <= bit_sizes@.len() <= 33,
        forall|k: int| 0 <= k < bit_sizes@.len() ==> bit_sizes@[k] <= 31,
        minval + tail_total(bit_sizes@, 0) <= 0xFFFF_FFFF,
        (*old(pos) + bit_sizes@.len() - 1) / 8 <= data@.len(),
        *old(pos) + bit_sizes@.len() + 31 <= usize::MAX,
    ensures
        dec_from(
            bits_of(data@),
            *old(pos) + bit_sizes@.len() + 31,
            *old(pos) as int,
            minval as int,
            bit_sizes@,
            0,
        ) == Some((r as int, *final(pos) as int)),
{
    let ghost s = bits_of(data@);
    let ghost start = *pos as int;
    let ghost sizes = bit_sizes@;
    let ghost end = start + sizes.len() + 31;
    let n_classes = bit_sizes.len();
    proof {
        lemma_dec_from_total(s, end, start, minval as int, sizes, 0);
        lemma_dec_from_bounds(s, end, start, minval as int, sizes, 0);
    }
    // The class is the number of 1 continuation bits before the first 0 (or the last
    // class if they are all 1).
    let max_cont_bits = (n_classes - 1) as u8;
    let cont = read_bits_le(*pos, data, max_cont_bits);
    let ones = cont.trailing_ones();
    let class = (if ones < max_cont_bits as u32 {
        ones
    } else {
        max_cont_bits as u32
    }) as usize;
    proof {
        let c = lemma_dec_class(s, end, start, minval as int, sizes, 0);
        axiom_u32_trailing_ones(cont);
        let to = u32_trailing_ones(cont);
        let m = max_cont_bits as u32;
        if to < c {
            assert((cont >> to) & 1u32 == 0u32);
            assert((((cont >> to) & 1u32) == 1u32) == (to < m && bit_at(data@, start + to)));
            assert(s(start + to));
        }
        if c < m {
            let cc = c as u32;
            assert((((cont >> cc) & 1u32) == 1u32) == (cc < m && bit_at(data@, start + cc)));
            assert(!s(start + (c - 0)));
            if to > c {
                assert((cont >> cc) & 1u32 == 1u32);
            }
        }
        assert(class == c);
    }
    // Skip past the continuation bits: `class` ones and a zero, unless last class.
    if class < n_classes - 1 {
        *pos += class + 1;
    } else {
        *pos += class;
    }
    // Accumulate the sizes of all skipped classes.
    let mut val = minval;
    let mut i: usize = 0;
    while i < class
        invariant
            class < bit_sizes@.len(),
            sizes == bit_sizes@,
            i <= class,
            forall|k: int| 0 <= k < sizes.len() ==> sizes[k] <= 31,
            val + tail_total(sizes, i as nat) == minval + tail_total(sizes, 0),
            minval + tail_total(sizes, 0) <= 0xFFFF_FFFF,
        decreases class - i,
    {
        proof {
            lemma_u32_shl_is_mul(1u32, bit_sizes@[i as int] as u32);
            lemma_pow2_pos(bit_sizes@[i as int] as nat);
        }
        val += 1u32 << (bit_sizes[i] as u32);
        i += 1;
    }
    // Read the value bits of this class; they are stored big-endian.
    let size = bit_sizes[class];
    let ghost q = *pos as int;
    let raw = read_bits_le(*pos, data, size);
    *pos += size as usize;
    proof {
        lemma_be_value_bound(s, q, size as nat);
        lemma_pow2_pos(size as nat);
    }
    if size > 0 {
        let rev = raw.reverse_bits();
        proof {
            lemma_reversed_window(raw, rev, size as u32, s, q);
        }
        val += rev >> (32 - size as u32);
    } else {
        assert(be_value(s, q, 0) == 0);
    }
    val
}

/// Decode the instruction type from one to three bits with a single read:
/// 0 = RETURN, 10 = JUMP, 110 = MATCH, 111 = DEFAULT.
fn decode_type(pos: &mut usize, data: &[u8]) -> (op: Instruction)
    requires
        *old(pos) / 8 <= data@.len(),
        *old(pos) + 3 <= usize::MAX,
    ensures
        dec_type(bits_of(data@), *old(pos) + 3, *old(pos) as int) == Some((op, *final(pos) as int)),
{
    let ghost s = bits_of(data@);
    let ghost p = *pos as int;
    proof {
        reveal_with_fuel(dec_from, 4);
        reveal_with_fuel(be_value, 2);
        lemma2_to64();
    }
    let bits = read_bits_le(*pos, data, 3);
    assert((bits & 1u32) == ((bits >> 0u32) & 1u32)) by (bit_vector);
    assert((bits & 2u32 == 0u32) == ((bits >> 1u32) & 1u32 == 0u32)) by (bit_vector);
    assert((bits & 4u32 == 0u32) == ((bits >> 2u32) & 1u32 == 0u32)) by (bit_vector);
    assert((((bits >> 0u32) & 1u32) == 1u32) == s(p + 0u32));
    assert((((bits >> 1u32) & 1u32) == 1u32) == s(p + 1u32));
    assert((((bits >> 2u32) & 1u32) == 1u32) == s(p + 2u32));
    assert(((bits >> 0u32) & 1u32) == 0u32 || ((bits >> 0u32) & 1u32) == 1u32) by (bit_vector);
    assert(((bits >> 1u32) & 1u32) == 0u32 || ((bits >> 1u32) & 1u32) == 1u32) by (bit_vector);
    assert(((bits >> 2u32) & 1u32) == 0u32 || ((bits >> 2u32) & 1u32) == 1u32) by (bit_vector);
    if bits & 1 == 0 {
        *pos += 1;
        Instruction::Return
    } else if bits & 2 == 0 {
        *pos += 2;
        Instruction::Jump
    } else if bits & 4 == 0 {
        *pos += 3;
        Instruction::Match
    } else {
        *pos += 3;
        Instruction::Default
    }
}

fn decode_asn(pos: &mut usize, data: &[u8]) -> (asn: u32)
    requires
        (*old(pos) + 9) / 8 <= data@.len(),
        *old(pos) + 41 <= usize::MAX,
    ensures
        dec_asn(bits_of(data@), *old(pos) + 41, *old(pos) as int) == Some(
            (asn as int, *final(pos) as int),
        ),
{
    let sizes = asn_bit_sizes();
    proof {
        lemma_table_totals();
    }
    decode_bits(pos, data, 1, sizes.as_slice())
}

fn decode_match(pos: &mut usize, data: &[u8]) -> (m: u32)
    requires
        (*old(pos) + 7) / 8 <= data@.len(),
        *old(pos) + 39 <= usize::MAX,
    ensures
        dec_match(bits_of(data@), *old(pos) + 39, *old(pos) as int) == Some(
            (m as int, *final(pos) as int),
        ),
{
    let sizes = match_bit_sizes();
    proof {
        lemma_table_totals();
    }
    decode_bits(pos, data, 2, sizes.as_slice())
}

fn decode_jump(pos: &mut usize, data: &[u8]) -> (j: u32)
    requires
        (*old(pos) + 25) / 8 <= data@.len(),
        *old(pos) + 57 <= usize::MAX,
    ensures
        dec_jump(bits_of(data@), *old(pos) + 57, *old(pos) as int) == Some(
            (j as int, *final(pos) as int),
        ),
{
    let sizes = jump_bit_sizes();
    proof {
        lemma_table_totals();
    }
    decode_bits(pos, data, 17, sizes.as_slice())
}

} // verus!

verus! {

/// Bit `i` of a 128-bit address, counting from the most significant bit.
pub open spec fn ip_bit_set(ip: u128, i: int) -> bool {
    (ip >> ((127 - i) as u32)) & 1u128 == 1u128
}

/// The `len` address bits starting at bit `start` (from the most significant), as a number.
pub open spec fn ip_window(ip: u128, start: int, len: int) -> u32 {
    ((ip >> ((128 - start - len) as u32)) & (((1u128 << (len as u32)) - 1u128) as u128)) as u32
}

/// The low `len` bits of `m`.
pub open spec fn low_bits(m: u32, len: int) -> u32 {
    m & (((1u32 << (len as u32)) - 1u32) as u32)
}

/// The result of running the bytecode from `pos` on address `ip`, having consumed
/// `ip_bit` address bits, with `default_asn` as the answer on a mismatch.
///
/// `None` where the bytecode is malformed along this path: an instruction that runs
/// past `end`, or more than 128 address bits consumed.
pub open spec fn run(
    s: spec_fn(int) -> bool,
    end: int,
    pos: int,
    ip: u128,
    ip_bit: int,
    default_asn: u32,
) -> Option<u32>
    decreases end - pos,
{
    if pos >= end {
        None
    } else {
        match dec_type(s, end, pos) {
            None => None,
            Some((op, p1)) => {
                proof {
                    lemma_dec_from_bounds(s, end, pos, 0, type_sizes(), 0);
                    lemma_dec_from_bounds(s, end, p1, 1, asn_sizes(), 0);
                    lemma_dec_from_bounds(s, end, p1, 2, match_sizes(), 0);
                    lemma_dec_from_bounds(s, end, p1, 17, jump_sizes(), 0);
                }
                match op {
                    Instruction::Return => match dec_asn(s, end, p1) {
                        Some((asn, _)) => Some(asn as u32),
                        None => None,
                    },
                    Instruction::Jump => match dec_jump(s, end, p1) {
                        None => None,
                        Some((j, p2)) => {
                            if ip_bit < 0 || ip_bit >= 128 || p2 + j > end {
                                None
                            } else if ip_bit_set(ip, ip_bit) {
                                run(s, end, p2 + j, ip, ip_bit + 1, default_asn)
                            } else {
                                run(s, end, p2, ip, ip_bit + 1, default_asn)
                            }
                        },
                    },
                    Instruction::Match => match dec_match(s, end, p1) {
                        None => None,
                        Some((m, p2)) => {
                            let len = match_len(m as u32);
                            if ip_bit < 0 || len < 0 || ip_bit + len > 128 {
                                None
                            } else if ip_window(ip, ip_bit, len) != low_bits(m as u32, len) {
                                Some(default_asn)
                            } else {
                                run(s, end, p2, ip, ip_bit + len, default_asn)
                            }
                        },
                    },
                    Instruction::Default => match dec_asn(s, end, p1) {
                        None => None,
                        Some((asn, p2)) => run(s, end, p2, ip, ip_bit, asn as u32),
                    },
                }
            },
        }
    }
}

/// How many instructions running the bytecode from `pos` decodes, on the same path as
/// `run`.
pub open spec fn run_steps(s: spec_fn(int) -> bool, end: int, pos: int, ip: u128, ip_bit: int) -> nat
    decreases end - pos,
{
    if pos >= end {
        0
    } else {
        match dec_type(s, end, pos) {
            None => 0,
            Some((op, p1)) => {
                proof {
                    lemma_dec_from_bounds(s, end, pos, 0, type_sizes(), 0);
                    lemma_dec_from_bounds(s, end, p1, 1, asn_sizes(), 0);
                    lemma_dec_from_bounds(s, end, p1, 2, match_sizes(), 0);
                    lemma_dec_from_bounds(s, end, p1, 17, jump_sizes(), 0);
                }
                match op {
                    Instruction::Return => 1,
                    Instruction::Jump => match dec_jump(s, end, p1) {
                        None => 1,
                        Some((j, p2)) => {
                            if ip_bit < 0 || ip_bit >= 128 || p2 + j > end {
                                1
                            } else if ip_bit_set(ip, ip_bit) {
                                1 + run_steps(s, end, p2 + j, ip, ip_bit + 1)
                            } else {
                                1 + run_steps(s, end, p2, ip, ip_bit + 1)
                            }
                        },
                    },
                    Instruction::Match => match dec_match(s, end, p1) {
                        None => 1,
                        Some((m, p2)) => {
                            let len = match_len(m as u32);
                            if ip_bit < 0 || len < 0 || ip_bit + len > 128 {
                                1
                            } else if ip_window(ip, ip_bit, len) != low_bits(m as u32, len) {
                                1
                            } else {
                                1 + run_steps(s, end, p2, ip, ip_bit + len)
                            }
                        },
                    },
                    Instruction::Default => match dec_asn(s, end, p1) {
                        None => 1,
                        Some((_, p2)) => 1 + run_steps(s, end, p2, ip, ip_bit),
                    },
                }
            },
        }
    }
}

/// How many instructions looking up `ip` in the asmap `code` decodes.
pub open spec fn lookup_steps(code: Seq<u8>, ip: u128) -> nat {
    run_steps(bits_of(code), 8 * code.len() as int, 0, ip, 0)
}

/// The ASN that the asmap `code` gives the 128-bit address `ip`.
pub open spec fn lookup_spec(code: Seq<u8>, ip: u128) -> Option<u32> {
    run(bits_of(code), 8 * code.len() as int, 0, ip, 0, 0)
}

/// The big-endian value of the first `k` bytes of `o`.
pub open spec fn be_bytes(o: Seq<u8>, k: nat) -> nat
    decreases k,
{
    if k == 0 || k > o.len() {
        0
    } else {
        256 * be_bytes(o, (k - 1) as nat) + o[k - 1] as nat
    }
}

/// The 128-bit number whose big-endian bytes are `octets`.
pub open spec fn addr_value(octets: Seq<u8>) -> u128 {
    be_bytes(octets, 16) as u128
}

} // verus!

verus! {

proof fn lemma_be_bytes_bound(o: Seq<u8>, k: nat)
    ensures
        be_bytes(o, k) < pow2(8 * k),
    decreases k,
{
    if k == 0 || k > o.len() {
        lemma_pow2_pos(8 * k);
    } else {
        lemma_be_bytes_bound(o, (k - 1) as nat);
        lemma_pow2_adds(8 * (k - 1) as nat, 8);
        lemma2_to64();
        let x = be_bytes(o, (k - 1) as nat) as int;
        let p = pow2(8 * (k - 1) as nat) as int;
        assert(256 * x + 255 < 256 * p) by (nonlinear_arith)
            requires
                x < p,
        ;
        assert(8 * (k - 1) as nat + 8 == 8 * k);
    }
}

/// Interpret asmap bytecode to find the ASN for a 128-bit (IPv6) address; 0 means
/// unmapped.
///
/// `asmap` is validated bytecode followed by 7 zero bytes of read padding.
pub(crate) fn interpret(asmap: &[u8], ip: &[u8; 16]) -> (asn: u32)
    requires
        asmap@.len() >= 7,
        8 * asmap@.len() <= usize::MAX,
        forall|i: int| asmap@.len() - 7 <= i < asmap@.len() ==> asmap@[i] == 0u8,
        valid_asmap(asmap@.subrange(0, asmap@.len() - 7)),
    ensures
        lookup_spec(asmap@.subrange(0, asmap@.len() - 7), addr_value(ip@)) == Some(asn),
{
    let ghost code = asmap@.subrange(0, asmap@.len() - 7);
    let ghost end = 8 * code.len() as int;
    let ghost s = bits_of(asmap@);
    proof {
        assert forall|b: int| byte_or_zero(asmap@, b) == byte_or_zero(code, b) by {}
        assert forall|i: int| #[trigger] bit_at(asmap@, i) == bit_at(code, i) by {
            assert(byte_or_zero(asmap@, i / 8) == byte_or_zero(code, i / 8));
        }
        assert(s =~= bits_of(code));
    }
    // The address as a big-endian 128-bit number.
    let mut ip_val: u128 = 0;
    let mut k: usize = 0;
    while k < 16
        invariant
            k <= 16,
            ip_val == be_bytes(ip@, k as nat),
            ip@.len() == 16,
        decreases 16 - k,
    {
        proof {
            lemma_be_bytes_bound(ip@, (k + 1) as nat);
            lemma_pow2_adds(64, 64);
            lemma2_to64();
            if k + 1 < 16 {
                lemma_pow2_strictly_increases(8 * (k + 1) as nat, 128);
            }
        }
        ip_val = ip_val * 256 + ip[k] as u128;
        k += 1;
    }
    let mut pos: usize = 0;
    let mut default_asn: u32 = 0;
    let mut ip_bit: u32 = 0;
    let ghost mut jumps: Seq<(int, int)> = Seq::empty();
    let ghost mut budget: int = 128;
    let ghost mut prev = Instruction::Jump;
    let ghost mut had = false;
    // The instructions decoded so far; a lookup decodes at most 2 * 128 + 3 of them.
    let ghost mut decoded: int = 0;
    proof {
        lemma_accepted_state_steps(s, end, 0, jumps, budget, prev, had, ip_val, 0);
    }
    loop
        invariant
            s == bits_of(asmap@),
            s == bits_of(code),
            code == asmap@.subrange(0, asmap@.len() - 7),
            end == 8 * code.len(),
            end + 56 == 8 * asmap@.len() <= usize::MAX,
            ip_val == addr_value(ip@),
            check(s, end, pos as int, jumps, budget, prev, had),
            0 <= budget,
            ip_bit + budget == 128,
            run(s, end, 0, ip_val, 0, 0) == run(
                s,
                end,
                pos as int,
                ip_val,
                ip_bit as int,
                default_asn,
            ),
            0 <= decoded,
            decoded + run_steps(s, end, pos as int, ip_val, ip_bit as int) <= 2 * 128 + 3,
        decreases run_steps(s, end, pos as int, ip_val, ip_bit as int),
    {
        let ghost p0 = pos as int;
        proof {
            decoded = decoded + 1;
        }
        proof {
            lemma_dec_from_bounds(s, end, p0, 0, type_sizes(), 0);
            lemma_table_totals();
        }
        let opcode = decode_type(&mut pos, asmap);
        let ghost p1 = pos as int;
        proof {
            lemma_dec_from_agree(s, end, p0 + 3, p0, 0, type_sizes(), 0);
            lemma_dec_from_bounds(s, end, p1, 1, asn_sizes(), 0);
            lemma_dec_from_bounds(s, end, p1, 2, match_sizes(), 0);
            lemma_dec_from_bounds(s, end, p1, 17, jump_sizes(), 0);
        }
        match opcode {
            Instruction::Return => {
                let asn = decode_asn(&mut pos, asmap);
                proof {
                    lemma_dec_from_agree(s, end, p1 + 41, p1, 1, asn_sizes(), 0);
                }
                return asn;
            },
            Instruction::Jump => {
                let jump = decode_jump(&mut pos, asmap);
                proof {
                    lemma_dec_from_agree(s, end, p1 + 57, p1, 17, jump_sizes(), 0);
                }
                let ghost p2 = pos as int;
                let ghost target = (p2 + jump, budget - 1);
                if (ip_val >> (127 - ip_bit)) & 1 == 1 {
                    pos += jump as usize;
                    proof {
                        assert(jumps.push(target) + Seq::<(int, int)>::empty() =~= jumps.push(
                            target,
                        ));
                        had =
                        lemma_reaches_pending_target(
                            s,
                            end,
                            p2,
                            jumps,
                            target,
                            Seq::empty(),
                            budget - 1,
                            Instruction::Jump,
                            had,
                        );
                    }
                } else {
                    proof {
                        jumps = jumps.push(target);
                    }
                }
                proof {
                    budget = budget - 1;
                    prev = Instruction::Jump;
                }
                ip_bit += 1;
            },
            Instruction::Match => {
                let match_val = decode_match(&mut pos, asmap);
                proof {
                    lemma_dec_from_agree(s, end, p1 + 39, p1, 2, match_sizes(), 0);
                }
                proof {
                    lemma_match_len_bounds(match_val);
                }
                let matchlen = 31 - match_val.leading_zeros();
                assert(1u128 <= (1u128 << matchlen) && 1u32 <= (1u32 << matchlen)
                    && (ip_val >> (128 - ip_bit - matchlen) as u32) & (((1u128 << matchlen) - 1u128) as u128)
                    <= 0xFFu128) by (bit_vector)
                    requires
                        1 <= matchlen <= 8,
                        ip_bit + matchlen <= 128,
                ;
                // The next `matchlen` address bits, and the pattern they must equal.
                let ip_bits = ((ip_val >> (128 - ip_bit - matchlen)) & ((1u128 << matchlen) - 1))
                    as u32;
                let pat_bits = match_val & ((1u32 << matchlen) - 1);
                if ip_bits != pat_bits {
                    return default_asn;
                }
                ip_bit += matchlen;
                proof {
                    had = (matchlen as int) < 8;
                    budget = budget - matchlen;
                    prev = Instruction::Match;
                }
            },
            Instruction::Default => {
                default_asn = decode_asn(&mut pos, asmap);
                proof {
                    lemma_dec_from_agree(s, end, p1 + 41, p1, 1, asn_sizes(), 0);
                }
                proof {
                    prev = Instruction::Default;
                }
            },
        }
    }
}

} // verus!
