//! The asmap bit stream and the meaning of its variable-length integers.
use vstd::prelude::*;
use vstd::arithmetic::power2::*;

verus! {

/// Byte `i` of `data`, or zero past either end.
pub open spec fn byte_or_zero(data: Seq<u8>, i: int) -> u8 {
    if 0 <= i < data.len() { data[i] } else { 0 }
}

/// Bit `i` of a byte stream; within each byte the least significant bit comes first.
pub open spec fn bit_at(data: Seq<u8>, i: int) -> bool {
    0 <= i && (byte_or_zero(data, i / 8) >> ((i % 8) as u8)) & 1u8 == 1u8
}

/// The bit stream of a byte sequence.
pub open spec fn bits_of(data: Seq<u8>) -> spec_fn(int) -> bool {
    |i: int| bit_at(data, i)
}

/// The `n` bits starting at `pos`, read as a big-endian number.
pub open spec fn be_value(s: spec_fn(int) -> bool, pos: int, n: nat) -> nat
    decreases n,
{
    if n == 0 {
        0
    } else {
        2 * be_value(s, pos, (n - 1) as nat) + if s(pos + n - 1) { 1nat } else { 0nat }
    }
}

/// The `n` bits starting at `pos`, read as a little-endian number.
pub open spec fn le_value(s: spec_fn(int) -> bool, pos: int, n: nat) -> nat
    decreases n,
{
    if n == 0 {
        0
    } else {
        (if s(pos) { 1nat } else { 0nat }) + 2 * le_value(s, pos + 1, (n - 1) as nat)
    }
}

pub proof fn lemma_be_value_bound(s: spec_fn(int) -> bool, pos: int, n: nat)
    ensures
        be_value(s, pos, n) < pow2(n),
    decreases n,
{
    if n > 0 {
        lemma_be_value_bound(s, pos, (n - 1) as nat);
        lemma_pow2_unfold(n);
    } else {
        lemma2_to64();
    }
}

/// The sum of `2^sizes[j]` over the classes `j >= k`: how many values classes `k..` can encode.
pub open spec fn tail_total(sizes: Seq<u8>, k: nat) -> nat
    decreases sizes.len() - k,
{
    if k >= sizes.len() {
        0
    } else {
        pow2(sizes[k as int] as nat) + tail_total(sizes, k + 1)
    }
}

/// Decode a class-prefixed integer, starting in class `k` with running offset `acc`.
///
/// Each class but the last is announced by one continuation bit: a 1 skips the class
/// (adding `2^size` to the offset), a 0 selects it. The selected class is followed by
/// `size` value bits, big-endian. `None` when a bit it needs lies at or past `end`.
pub open spec fn dec_from(
    s: spec_fn(int) -> bool,
    end: int,
    pos: int,
    acc: int,
    sizes: Seq<u8>,
    k: nat,
) -> Option<(int, int)>
    decreases sizes.len() - k,
{
    if k >= sizes.len() {
        None
    } else if k + 1 == sizes.len() {
        let size = sizes[k as int] as nat;
        if size == 0 || pos + size <= end {
            Some((acc + be_value(s, pos, size), pos + size))
        } else {
            None
        }
    } else if pos >= end {
        None
    } else if s(pos) {
        dec_from(s, end, pos + 1, acc + pow2(sizes[k as int] as nat), sizes, k + 1)
    } else {
        let size = sizes[k as int] as nat;
        if pos + 1 + size <= end {
            Some((acc + be_value(s, pos + 1, size), pos + 1 + size))
        } else {
            None
        }
    }
}

pub proof fn lemma_dec_from_bounds(
    s: spec_fn(int) -> bool,
    end: int,
    pos: int,
    acc: int,
    sizes: Seq<u8>,
    k: nat,
)
    ensures
        dec_from(s, end, pos, acc, sizes, k) matches Some((v, p)) ==> {
            &&& acc <= v < acc + tail_total(sizes, k)
            &&& pos <= p
            &&& (pos <= end ==> p <= end)
            &&& (k + 1 < sizes.len() ==> pos < p)
        },
    decreases sizes.len() - k,
{
    if k < sizes.len() {
        let size = sizes[k as int] as nat;
        lemma_pow2_pos(size);
        if k + 1 == sizes.len() {
            lemma_be_value_bound(s, pos, size);
        } else if pos < end {
            if s(pos) {
                lemma_dec_from_bounds(s, end, pos + 1, acc + pow2(size), sizes, k + 1);
            } else {
                lemma_be_value_bound(s, pos + 1, size);
            }
        }
    }
}

/// Where a decoding that succeeds found its class, and what it read there.
pub proof fn lemma_dec_class(
    s: spec_fn(int) -> bool,
    end: int,
    pos: int,
    acc: int,
    sizes: Seq<u8>,
    k: nat,
) -> (c: nat)
    requires
        dec_from(s, end, pos, acc, sizes, k) is Some,
    ensures
        k <= c < sizes.len(),
        forall|j: int| 0 <= j < c - k ==> #[trigger] s(pos + j),
        c + 1 < sizes.len() ==> !s(pos + (c - k)) && pos + (c - k) < end,
        ({
            let q = pos + (c - k) + if c + 1 < sizes.len() { 1int } else { 0int };
            let size = sizes[c as int] as nat;
            &&& (size == 0 || q + size <= end)
            &&& dec_from(s, end, pos, acc, sizes, k) == Some(
                (acc + (tail_total(sizes, k) - tail_total(sizes, c)) + be_value(s, q, size), q + size),
            )
        }),
    decreases sizes.len() - k,
{
    if k + 1 == sizes.len() {
        k
    } else if s(pos) {
        let c = lemma_dec_class(s, end, pos + 1, acc + pow2(sizes[k as int] as nat), sizes, k + 1);
        assert forall|j: int| 0 <= j < c - k implies #[trigger] s(pos + j) by {
            if j > 0 {
                assert(s((pos + 1) + (j - 1)));
            }
        }
        c
    } else {
        k
    }
}

/// The instruction kinds of the asmap bytecode.
#[derive(PartialEq, Eq, Structural, Clone, Copy, Debug)]
pub enum Instruction {
    Return,
    Jump,
    Match,
    Default,
}

pub open spec fn type_sizes() -> Seq<u8> {
    seq![0u8, 0, 1]
}

pub open spec fn asn_sizes() -> Seq<u8> {
    seq![15u8, 16, 17, 18, 19, 20, 21, 22, 23, 24]
}

pub open spec fn match_sizes() -> Seq<u8> {
    seq![1u8, 2, 3, 4, 5, 6, 7, 8]
}

pub open spec fn jump_sizes() -> Seq<u8> {
    seq![
        5u8, 6, 7, 8, 9, 10, 11, 12, 13, 14, 15, 16, 17, 18, 19, 20, 21, 22, 23, 24, 25, 26, 27,
        28, 29, 30,
    ]
}

pub open spec fn dec_type(s: spec_fn(int) -> bool, end: int, pos: int) -> Option<(Instruction, int)> {
    match dec_from(s, end, pos, 0, type_sizes(), 0) {
        Some((v, p)) => if v == 0 {
            Some((Instruction::Return, p))
        } else if v == 1 {
            Some((Instruction::Jump, p))
        } else if v == 2 {
            Some((Instruction::Match, p))
        } else if v == 3 {
            Some((Instruction::Default, p))
        } else {
            None
        },
        None => None,
    }
}

pub open spec fn dec_asn(s: spec_fn(int) -> bool, end: int, pos: int) -> Option<(int, int)> {
    dec_from(s, end, pos, 1, asn_sizes(), 0)
}

pub open spec fn dec_match(s: spec_fn(int) -> bool, end: int, pos: int) -> Option<(int, int)> {
    dec_from(s, end, pos, 2, match_sizes(), 0)
}

pub open spec fn dec_jump(s: spec_fn(int) -> bool, end: int, pos: int) -> Option<(int, int)> {
    dec_from(s, end, pos, 17, jump_sizes(), 0)
}

pub proof fn lemma_table_totals()
    ensures
        tail_total(type_sizes(), 0) == 4,
        1 + tail_total(asn_sizes(), 0) < 0xFFFF_FFFF,
        tail_total(match_sizes(), 0) == 510,
        17 + tail_total(jump_sizes(), 0) < 0xFFFF_FFFF,
{
    lemma2_to64();
    reveal_with_fuel(tail_total, 27);
}

} // verus!

verus! {

pub proof fn lemma_be_shift_step(s: spec_fn(int) -> bool, pos: int, b: nat, size: nat)
    requires
        b < size,
    ensures
        be_value(s, pos, b) * pow2((size - b) as nat) + (if s(pos + b) {
            pow2((size - b - 1) as nat)
        } else {
            0
        }) == be_value(s, pos, b + 1) * pow2((size - b - 1) as nat),
        be_value(s, pos, b + 1) * pow2((size - b - 1) as nat) + pow2((size - b - 1) as nat)
            <= pow2(size),
{
    let e = (size - b - 1) as nat;
    lemma_pow2_unfold((size - b) as nat);
    lemma_be_value_bound(s, pos, b + 1);
    lemma_pow2_adds(b + 1, e);
    let x = be_value(s, pos, b) as int;
    let y = be_value(s, pos, b + 1) as int;
    let t: int = if s(pos + b) { 1 } else { 0 };
    let p = pow2(e) as int;
    let q = pow2(b + 1) as int;
    assert(y == 2 * x + t);
    assert(x * (2 * p) + t * p == y * p) by (nonlinear_arith)
        requires
            y == 2 * x + t,
    ;
    assert(y * p + p <= q * p) by (nonlinear_arith)
        requires
            y + 1 <= q,
            p >= 0,
    ;
}

/// The number of address bits a MATCH value compares: its bit length minus one.
pub open spec fn match_len(v: u32) -> int {
    31 - vstd::std_specs::bits::u32_leading_zeros(v)
}

} // verus!

verus! {

pub proof fn lemma_be_value_agree(
    s1: spec_fn(int) -> bool,
    s2: spec_fn(int) -> bool,
    pos: int,
    n: nat,
)
    requires
        forall|i: int| pos <= i < pos + n ==> #[trigger] s1(i) == s2(i),
    ensures
        be_value(s1, pos, n) == be_value(s2, pos, n),
    decreases n,
{
    if n > 0 {
        lemma_be_value_agree(s1, s2, pos, (n - 1) as nat);
        assert(s1(pos + n - 1) == s2(pos + n - 1));
    }
}

/// A decoding that succeeds within `end1` decodes alike in any stream that agrees with
/// it below `end1` and ends no earlier.
pub proof fn lemma_dec_from_extends(
    s1: spec_fn(int) -> bool,
    end1: int,
    s2: spec_fn(int) -> bool,
    end2: int,
    pos: int,
    acc: int,
    sizes: Seq<u8>,
    k: nat,
)
    requires
        end1 <= end2,
        0 <= pos,
        forall|i: int| 0 <= i < end1 ==> #[trigger] s1(i) == s2(i),
        dec_from(s1, end1, pos, acc, sizes, k) is Some,
    ensures
        dec_from(s2, end2, pos, acc, sizes, k) == dec_from(s1, end1, pos, acc, sizes, k),
    decreases sizes.len() - k,
{
    if k + 1 == sizes.len() {
        lemma_be_value_agree(s1, s2, pos, sizes[k as int] as nat);
    } else if s1(pos) {
        lemma_dec_from_extends(
            s1,
            end1,
            s2,
            end2,
            pos + 1,
            acc + pow2(sizes[k as int] as nat),
            sizes,
            k + 1,
        );
    } else {
        lemma_be_value_agree(s1, s2, pos + 1, sizes[k as int] as nat);
    }
}

/// Two decodings of one stream that both succeed agree, whatever their ends.
pub proof fn lemma_dec_from_agree(
    s: spec_fn(int) -> bool,
    end1: int,
    end2: int,
    pos: int,
    acc: int,
    sizes: Seq<u8>,
    k: nat,
)
    requires
        0 <= pos,
        dec_from(s, end1, pos, acc, sizes, k) is Some,
        dec_from(s, end2, pos, acc, sizes, k) is Some,
    ensures
        dec_from(s, end1, pos, acc, sizes, k) == dec_from(s, end2, pos, acc, sizes, k),
{
    if end1 <= end2 {
        lemma_dec_from_extends(s, end1, s, end2, pos, acc, sizes, k);
    } else {
        lemma_dec_from_extends(s, end2, s, end1, pos, acc, sizes, k);
    }
}

/// With class sizes of at most 31, a decoding never needs more than
/// `(classes left) + 31` bits, so it succeeds whenever the stream lasts that long.
pub proof fn lemma_dec_from_total(
    s: spec_fn(int) -> bool,
    end: int,
    pos: int,
    acc: int,
    sizes: Seq<u8>,
    k: nat,
)
    requires
        k < sizes.len(),
        forall|j: int| 0 <= j < sizes.len() ==> sizes[j] <= 31,
        pos + (sizes.len() - k) + 31 <= end,
    ensures
        dec_from(s, end, pos, acc, sizes, k) matches Some((_, p)) && p <= pos + (sizes.len()
            - k) - 1 + 31,
    decreases sizes.len() - k,
{
    if k + 1 < sizes.len() && s(pos) {
        lemma_dec_from_total(s, end, pos + 1, acc + pow2(sizes[k as int] as nat), sizes, k + 1);
    }
}

/// The class sizes of the instruction type.
pub(crate) fn type_bit_sizes() -> (sizes: [u8; 3])
    ensures
        sizes@ == type_sizes(),
{
    let sizes = [0u8, 0, 1];
    assert(sizes@ =~= type_sizes());
    sizes
}

/// The class sizes of an ASN.
pub(crate) fn asn_bit_sizes() -> (sizes: [u8; 10])
    ensures
        sizes@ == asn_sizes(),
{
    let sizes = [15u8, 16, 17, 18, 19, 20, 21, 22, 23, 24];
    assert(sizes@ =~= asn_sizes());
    sizes
}

/// The class sizes of a MATCH value.
pub(crate) fn match_bit_sizes() -> (sizes: [u8; 8])
    ensures
        sizes@ == match_sizes(),
{
    let sizes = [1u8, 2, 3, 4, 5, 6, 7, 8];
    assert(sizes@ =~= match_sizes());
    sizes
}

/// The class sizes of a JUMP offset.
pub(crate) fn jump_bit_sizes() -> (sizes: [u8; 26])
    ensures
        sizes@ == jump_sizes(),
{
    let sizes = [
        5u8, 6, 7, 8, 9, 10, 11, 12, 13, 14, 15, 16, 17, 18, 19, 20, 21, 22, 23, 24, 25, 26, 27,
        28, 29, 30,
    ];
    assert(sizes@ =~= jump_sizes());
    sizes
}

/// Bits past the end of the data read as zero, so zero padding never changes the stream,
/// nor any window of bits read from it.
pub proof fn lemma_zero_padding_invisible(data: Seq<u8>, n: nat)
    ensures
        bits_of(data + Seq::new(n, |i: int| 0u8)) == bits_of(data),
        forall|pos: int, count: nat|
            le_value(bits_of(data + Seq::new(n, |i: int| 0u8)), pos, count) == #[trigger] le_value(
                bits_of(data),
                pos,
                count,
            ),
{
    let padded = data + Seq::new(n, |i: int| 0u8);
    assert forall|i: int| #[trigger] bit_at(padded, i) == bit_at(data, i) by {
        assert(byte_or_zero(padded, i / 8) == byte_or_zero(data, i / 8));
    }
    assert(bits_of(padded) =~= bits_of(data));
}

} // verus!

verus! {

/// The bulk decoding (of data padded with zeros, with no end in reach) gives what the
/// bit-by-bit decoding within the data gives, whenever the latter succeeds.
pub proof fn lemma_bulk_decoding_agrees(
    data: Seq<u8>,
    pad: nat,
    pos: int,
    minval: int,
    sizes: Seq<u8>,
)
    requires
        0 <= pos,
        1 <= sizes.len(),
        forall|j: int| 0 <= j < sizes.len() ==> sizes[j] <= 31,
        dec_from(bits_of(data), 8 * data.len() as int, pos, minval, sizes, 0) is Some,
    ensures
        dec_from(
            bits_of(data + Seq::new(pad, |i: int| 0u8)),
            pos + sizes.len() + 31,
            pos,
            minval,
            sizes,
            0,
        ) == dec_from(bits_of(data), 8 * data.len() as int, pos, minval, sizes, 0),
{
    lemma_zero_padding_invisible(data, pad);
    lemma_dec_from_total(bits_of(data), pos + sizes.len() + 31, pos, minval, sizes, 0);
    lemma_dec_from_agree(
        bits_of(data),
        8 * data.len() as int,
        pos + sizes.len() + 31,
        pos,
        minval,
        sizes,
        0,
    );
}

/// The single three-bit read of the instruction type gives what the bit-by-bit type
/// decoding within the data gives, whenever the latter succeeds.
pub proof fn lemma_bulk_type_decoding_agrees(data: Seq<u8>, pad: nat, pos: int)
    requires
        0 <= pos,
        dec_type(bits_of(data), 8 * data.len() as int, pos) is Some,
    ensures
        dec_type(bits_of(data + Seq::new(pad, |i: int| 0u8)), pos + 3, pos) == dec_type(
            bits_of(data),
            8 * data.len() as int,
            pos,
        ),
{
    lemma_zero_padding_invisible(data, pad);
    reveal_with_fuel(dec_from, 4);
    assert(dec_from(bits_of(data), pos + 3, pos, 0, type_sizes(), 0) is Some);
    lemma_dec_from_agree(bits_of(data), 8 * data.len() as int, pos + 3, pos, 0, type_sizes(), 0);
}

} // verus!
