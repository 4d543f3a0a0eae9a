//! Structural validation of asmap bytecode by simulating every execution path.
use vstd::prelude::*;
use vstd::arithmetic::power2::*;
use vstd::bits::*;
use crate::format::{
    bit_at, be_value, byte_or_zero, lemma_be_shift_step, bits_of, dec_asn, dec_from, dec_jump, dec_match, dec_type, lemma_dec_from_bounds, match_len,
    lemma_table_totals, tail_total, Instruction, type_bit_sizes, asn_bit_sizes, match_bit_sizes,
    jump_bit_sizes, lemma_dec_from_extends, asn_sizes, jump_sizes, match_sizes, type_sizes,
};

verus! {

/// The value the decoders return for an encoding that runs past the end of the data.
pub const INVALID: u32 = 0xFFFF_FFFFu32;

/// Whether the bits in `from..to` are all zero.
pub open spec fn zero_bits(s: spec_fn(int) -> bool, from: int, to: int) -> bool {
    forall|i: int| from <= i < to ==> !#[trigger] s(i)
}

/// One run of the validator from the given state to its verdict.
///
/// `jumps` holds the pending jump targets with the address-bit budget saved at each,
/// innermost last; `budget` is the number of address bits still available on this path.
pub open spec fn check(
    s: spec_fn(int) -> bool,
    end: int,
    pos: int,
    jumps: Seq<(int, int)>,
    budget: int,
    prev: Instruction,
    had_incomplete: bool,
) -> bool
    decreases end - pos,
{
    if pos >= end {
        false
    } else if jumps.len() > 0 && pos >= jumps.last().0 {
        false
    } else {
        match dec_type(s, end, pos) {
            None => false,
            Some((op, p1)) => {
                proof {
                    lemma_dec_from_bounds(s, end, pos, 0, type_sizes(), 0);
                    lemma_dec_from_bounds(s, end, p1, 1, asn_sizes(), 0);
                    lemma_dec_from_bounds(s, end, p1, 2, match_sizes(), 0);
                    lemma_dec_from_bounds(s, end, p1, 17, jump_sizes(), 0);
                }
                match op {
                    Instruction::Return => {
                        if prev == Instruction::Default {
                            false
                        } else {
                            match dec_asn(s, end, p1) {
                                None => false,
                                Some((_, p2)) => {
                                    if jumps.len() == 0 {
                                        end - p2 <= 7 && zero_bits(s, p2, end)
                                    } else if p2 != jumps.last().0 {
                                        false
                                    } else {
                                        check(
                                            s,
                                            end,
                                            p2,
                                            jumps.drop_last(),
                                            jumps.last().1,
                                            Instruction::Jump,
                                            had_incomplete,
                                        )
                                    }
                                },
                            }
                        }
                    },
                    Instruction::Jump => {
                        match dec_jump(s, end, p1) {
                            None => false,
                            Some((j, p2)) => {
                                if j > end - p2 {
                                    false
                                } else if budget == 0 {
                                    false
                                } else if jumps.len() > 0 && p2 + j >= jumps.last().0 {
                                    false
                                } else {
                                    check(
                                        s,
                                        end,
                                        p2,
                                        jumps.push((p2 + j, budget - 1)),
                                        budget - 1,
                                        Instruction::Jump,
                                        had_incomplete,
                                    )
                                }
                            },
                        }
                    },
                    Instruction::Match => {
                        match dec_match(s, end, p1) {
                            None => false,
                            Some((m, p2)) => {
                                let len = match_len(m as u32);
                                let had = if prev != Instruction::Match {
                                    false
                                } else {
                                    had_incomplete
                                };
                                if len < 8 && had {
                                    false
                                } else if budget < len {
                                    false
                                } else {
                                    check(
                                        s,
                                        end,
                                        p2,
                                        jumps,
                                        budget - len,
                                        Instruction::Match,
                                        len < 8,
                                    )
                                }
                            },
                        }
                    },
                    Instruction::Default => {
                        if prev == Instruction::Default {
                            false
                        } else {
                            match dec_asn(s, end, p1) {
                                None => false,
                                Some((_, p2)) => check(
                                    s,
                                    end,
                                    p2,
                                    jumps,
                                    budget,
                                    Instruction::Default,
                                    had_incomplete,
                                ),
                            }
                        }
                    },
                }
            },
        }
    }
}

/// Whether the validator accepts `code` for addresses of `budget` bits.
pub open spec fn accepts(code: Seq<u8>, budget: int) -> bool {
    check(bits_of(code), 8 * code.len() as int, 0, Seq::empty(), budget, Instruction::Jump, false)
}

/// Whether `code` is a well-formed asmap for 128-bit addresses.
pub open spec fn valid_asmap(code: Seq<u8>) -> bool {
    accepts(code, 128)
}

} // verus!

verus! {

/// Read the bit at `bitpos` and advance past it.
fn consume_bit_le(bitpos: &mut usize, bytes: &[u8]) -> (bit: bool)
    requires
        *old(bitpos) < 8 * bytes@.len() <= usize::MAX,
    ensures
        bit == bit_at(bytes@, *old(bitpos) as int),
        *final(bitpos) == *old(bitpos) + 1,
{
    let byte = bytes[*bitpos / 8];
    let shift = (*bitpos % 8) as u8;
    let bit = (byte >> shift) & 1;
    assert(bit == 0 || bit == 1) by (bit_vector)
        requires
            bit == (byte >> shift) & 1,
    ;
    *bitpos += 1;
    bit != 0
}

/// Where a decoder that runs out of bits leaves the position: at the end of the data,
/// or where it started if that was already past the end.
pub open spec fn stop_pos(start: int, end: int) -> int {
    if start <= end {
        end
    } else {
        start
    }
}

/// Decode a class-prefixed integer one bit at a time; `INVALID` if it runs past the end.
fn decode_bits(bitpos: &mut usize, data: &[u8], minval: u32, bit_sizes: &[u8]) -> (r: u32)
    requires
        8 * data@.len() <= usize::MAX,
        1 <= bit_sizes@.len(),
        forall|k: int| 0 <= k < bit_sizes@.len() ==> bit_sizes@[k] <= 31,
        minval + tail_total(bit_sizes@, 0) <= 0xFFFF_FFFF,
    ensures
        match dec_from(
            bits_of(data@),
            8 * data@.len() as int,
            *old(bitpos) as int,
            minval as int,
            bit_sizes@,
            0,
        ) {
            Some((v, p)) => r == v && *final(bitpos) == p,
            None => r == INVALID && *final(bitpos) == stop_pos(
                *old(bitpos) as int,
                8 * data@.len() as int,
            ),
        },
{
    let ghost s = bits_of(data@);
    let ghost end = 8 * data@.len() as int;
    let ghost sizes = bit_sizes@;
    let ghost start = *bitpos as int;
    let end_bits = data.len() * 8;
    let mut val = minval;
    let mut i: usize = 0;
    while i < bit_sizes.len()
        invariant
            end_bits == end,
            end == 8 * data@.len(),
            s == bits_of(data@),
            start == *old(bitpos) as int,
            end <= usize::MAX,
            (start <= end && *bitpos <= end) || (start > end && *bitpos == start && i == 0),
            sizes == bit_sizes@,
            1 <= sizes.len(),
            i < sizes.len(),
            forall|k: int| 0 <= k < sizes.len() ==> sizes[k] <= 31,
            val + tail_total(sizes, i as nat) == minval + tail_total(sizes, 0),
            minval + tail_total(sizes, 0) <= 0xFFFF_FFFF,
            dec_from(s, end, start, minval as int, sizes, 0) == dec_from(
                s,
                end,
                *bitpos as int,
                val as int,
                sizes,
                i as nat,
            ),
        decreases bit_sizes.len() - i,
    {
        let size = bit_sizes[i];
        let is_last = i + 1 == bit_sizes.len();
        let bit = if !is_last {
            if *bitpos >= end_bits {
                return INVALID;
            }
            consume_bit_le(bitpos, data)
        } else {
            false
        };
        proof {
            lemma_pow2_pos(size as nat);
        }
        if bit {
            proof {
                lemma_u32_shl_is_mul(1u32, size as u32);
            }
            val += 1u32 << (size as u32);
        } else {
            // The class is selected: read its value bits, most significant first.
            let ghost q = *bitpos as int;
            let ghost acc = val as int;
            let mut b: u8 = 0;
            proof {
                lemma2_to64();
                assert(be_value(s, q, 0) == 0);
                let p = pow2(size as nat);
                assert(0 * p == 0) by (nonlinear_arith);
            }
            while b < size
                invariant
                    end_bits == end,
                    end == 8 * data@.len(),
                    s == bits_of(data@),
                    start == *old(bitpos) as int,
                    sizes == bit_sizes@,
                    end <= usize::MAX,
                    b <= size <= 31,
                    *bitpos == q + b,
                    (start <= end && *bitpos <= end) || (start > end && *bitpos == start && b
                        == 0),
                    acc + pow2(size as nat) <= 0xFFFF_FFFF,
                    val == acc + be_value(s, q, b as nat) * pow2((size - b) as nat),
                    dec_from(s, end, start, minval as int, sizes, 0) == if size == 0 || q + size
                        <= end {
                        Some((acc + be_value(s, q, size as nat), q + size))
                    } else {
                        None::<(int, int)>
                    },
                decreases size - b,
            {
                if *bitpos >= end_bits {
                    return INVALID;
                }
                proof {
                    lemma_be_shift_step(s, q, b as nat, size as nat);
                    lemma_pow2_pos((size - b - 1) as nat);
                    lemma_u32_shl_is_mul(1u32, (size - 1 - b) as u32);
                }
                let set = consume_bit_le(bitpos, data);
                if set {
                    val += 1u32 << ((size - 1 - b) as u32);
                }
                b += 1;
            }
            proof {
                lemma2_to64();
                let bv = be_value(s, q, size as nat);
                let p0 = pow2((size - b) as nat);
                assert(bv * p0 == bv) by (nonlinear_arith)
                    requires
                        p0 == 1,
                ;
            }
            return val;
        }
        i += 1;
    }
    INVALID
}

} // verus!

verus! {

fn decode_type(bitpos: &mut usize, data: &[u8]) -> (r: Option<Instruction>)
    requires
        8 * data@.len() <= usize::MAX,
    ensures
        match dec_type(bits_of(data@), 8 * data@.len() as int, *old(bitpos) as int) {
            Some((op, p)) => r == Some(op) && *final(bitpos) == p,
            None => r is None && *final(bitpos) == stop_pos(
                *old(bitpos) as int,
                8 * data@.len() as int,
            ),
        },
{
    let sizes = type_bit_sizes();
    proof {
        lemma_table_totals();
        lemma_dec_from_bounds(
            bits_of(data@),
            8 * data@.len() as int,
            *bitpos as int,
            0,
            type_sizes(),
            0,
        );
    }
    match decode_bits(bitpos, data, 0, sizes.as_slice()) {
        0 => Some(Instruction::Return),
        1 => Some(Instruction::Jump),
        2 => Some(Instruction::Match),
        3 => Some(Instruction::Default),
        _ => None,
    }
}

fn decode_asn(bitpos: &mut usize, data: &[u8]) -> (r: u32)
    requires
        8 * data@.len() <= usize::MAX,
    ensures
        match dec_asn(bits_of(data@), 8 * data@.len() as int, *old(bitpos) as int) {
            Some((v, p)) => r == v && *final(bitpos) == p,
            None => r == INVALID && *final(bitpos) == stop_pos(
                *old(bitpos) as int,
                8 * data@.len() as int,
            ),
        },
{
    let sizes = asn_bit_sizes();
    proof {
        lemma_table_totals();
    }
    decode_bits(bitpos, data, 1, sizes.as_slice())
}

fn decode_match(bitpos: &mut usize, data: &[u8]) -> (r: u32)
    requires
        8 * data@.len() <= usize::MAX,
    ensures
        match dec_match(bits_of(data@), 8 * data@.len() as int, *old(bitpos) as int) {
            Some((v, p)) => r == v && *final(bitpos) == p,
            None => r == INVALID && *final(bitpos) == stop_pos(
                *old(bitpos) as int,
                8 * data@.len() as int,
            ),
        },
{
    let sizes = match_bit_sizes();
    proof {
        lemma_table_totals();
    }
    decode_bits(bitpos, data, 2, sizes.as_slice())
}

fn decode_jump(bitpos: &mut usize, data: &[u8]) -> (r: u32)
    requires
        8 * data@.len() <= usize::MAX,
    ensures
        match dec_jump(bits_of(data@), 8 * data@.len() as int, *old(bitpos) as int) {
            Some((v, p)) => r == v && *final(bitpos) == p,
            None => r == INVALID && *final(bitpos) == stop_pos(
                *old(bitpos) as int,
                8 * data@.len() as int,
            ),
        },
{
    let sizes = jump_bit_sizes();
    proof {
        lemma_table_totals();
    }
    decode_bits(bitpos, data, 17, sizes.as_slice())
}

} // verus!

verus! {

/// The pending jumps of the validator, as the specification sees them.
pub open spec fn stack_view(jumps: Seq<(usize, i32)>) -> Seq<(int, int)> {
    jumps.map_values(|e: (usize, i32)| (e.0 as int, e.1 as int))
}

/// Validate an asmap by simulating all possible execution paths, for addresses of
/// `bits` bits.
///
/// Checks that no instruction straddles the end of the data, that jump targets are in
/// bounds and nest without overlapping, that no code is unreachable, that there are no
/// redundant instruction sequences (two DEFAULTs in a row, DEFAULT then RETURN), that
/// the padding is at most 7 zero bits, and that every path ends with a RETURN.
#[verifier::rlimit(50)]
pub fn sanity_check(asmap: &[u8], bits: i32) -> (r: bool)
    requires
        0 <= bits,
        8 * asmap@.len() <= usize::MAX,
    ensures
        r == accepts(asmap@, bits as int),
{
    let ghost s = bits_of(asmap@);
    let ghost end = 8 * asmap@.len() as int;
    let ghost verdict = check(s, end, 0, Seq::empty(), bits as int, Instruction::Jump, false);
    let mut bits_left = bits;
    let mut pos: usize = 0;
    let endpos = asmap.len() * 8;
    let mut jumps: Vec<(usize, i32)> = Vec::with_capacity(bits_left as usize);
    let mut prevopcode = Instruction::Jump;
    let mut had_incomplete_match = false;
    assert(stack_view(jumps@) =~= Seq::<(int, int)>::empty());
    while pos != endpos
        invariant
            endpos == end == 8 * asmap@.len() <= usize::MAX,
            s == bits_of(asmap@),
            pos <= endpos,
            0 <= bits_left,
            verdict == check(s, end, 0, Seq::empty(), bits as int, Instruction::Jump, false),
            forall|i: int| 0 <= i < jumps@.len() ==> 0 <= #[trigger] jumps@[i].1,
            verdict == check(
                s,
                end,
                pos as int,
                stack_view(jumps@),
                bits_left as int,
                prevopcode,
                had_incomplete_match,
            ),
        decreases endpos - pos,
    {
        let ghost pos0 = pos as int;
        // No jump may land in the middle of the previous instruction.
        if jumps.len() > 0 {
            let target = jumps[jumps.len() - 1].0;
            if pos >= target {
                return false;
            }
        }
        let opcode = match decode_type(&mut pos, asmap) {
            Some(op) => op,
            None => return false,
        };
        let ghost p1 = pos as int;
        proof {
            lemma_dec_from_bounds(s, end, pos0, 0, type_sizes(), 0);
            lemma_dec_from_bounds(s, end, p1, 1, asn_sizes(), 0);
            lemma_dec_from_bounds(s, end, p1, 2, match_sizes(), 0);
            lemma_dec_from_bounds(s, end, p1, 17, jump_sizes(), 0);
            lemma_table_totals();
        }
        match opcode {
            Instruction::Return => {
                if prevopcode == Instruction::Default {
                    return false;
                }
                let asn = decode_asn(&mut pos, asmap);
                if asn == INVALID {
                    return false;
                }
                if jumps.len() == 0 {
                    // The final instruction: only zero padding may follow.
                    if endpos - pos > 7 {
                        return false;
                    }
                    let ghost p2 = pos as int;
                    while pos != endpos
                        invariant
                            endpos == end == 8 * asmap@.len() <= usize::MAX,
                            s == bits_of(asmap@),
                            p2 <= pos <= endpos,
                            zero_bits(s, p2, pos as int),
                            verdict == zero_bits(s, p2, end),
                            verdict == check(s, end, 0, Seq::empty(), bits as int, Instruction::Jump, false),
                        decreases endpos - pos,
                    {
                        let ghost at = pos as int;
                        if consume_bit_le(&mut pos, asmap) {
                            assert(s(at));
                            return false;
                        }
                    }
                    return true;
                } else {
                    // Continue at the innermost pending jump target.
                    let ghost before = jumps@;
                    let (target, saved_bits) = jumps.pop().unwrap();
                    assert(stack_view(jumps@) =~= stack_view(before).drop_last());
                    if pos != target {
                        return false;
                    }
                    bits_left = saved_bits;
                    prevopcode = Instruction::Jump;
                }
            },
            Instruction::Jump => {
                let jump = decode_jump(&mut pos, asmap);
                if jump == INVALID {
                    return false;
                }
                if jump as usize > endpos - pos {
                    return false;
                }
                if bits_left == 0 {
                    return false;
                }
                bits_left -= 1;
                let jump_offset = pos + jump as usize;
                if jumps.len() > 0 {
                    let last_target = jumps[jumps.len() - 1].0;
                    if jump_offset >= last_target {
                        return false;
                    }
                }
                let ghost before = jumps@;
                jumps.push((jump_offset, bits_left));
                assert(stack_view(jumps@) =~= stack_view(before).push(
                    (jump_offset as int, bits_left as int),
                ));
                prevopcode = Instruction::Jump;
            },
            Instruction::Match => {
                let match_val = decode_match(&mut pos, asmap);
                if match_val == INVALID {
                    return false;
                }
                let matchlen = (32 - match_val.leading_zeros()) as i32 - 1;
                if prevopcode != Instruction::Match {
                    had_incomplete_match = false;
                }
                if matchlen < 8 && had_incomplete_match {
                    return false;
                }
                had_incomplete_match = matchlen < 8;
                if bits_left < matchlen {
                    return false;
                }
                bits_left -= matchlen;
                prevopcode = Instruction::Match;
            },
            Instruction::Default => {
                if prevopcode == Instruction::Default {
                    return false;
                }
                let asn = decode_asn(&mut pos, asmap);
                if asn == INVALID {
                    return false;
                }
                prevopcode = Instruction::Default;
            },
        }
    }
    // The data ended without a final RETURN.
    false
}

} // verus!

verus! {



/// Two accepting validator runs from the same state, over streams that agree below the
/// shorter end, have ends less than a byte apart.
proof fn lemma_accepting_runs_end_together(
    s1: spec_fn(int) -> bool,
    end1: int,
    s2: spec_fn(int) -> bool,
    end2: int,
    pos: int,
    jumps: Seq<(int, int)>,
    budget: int,
    prev: Instruction,
    had_incomplete: bool,
)
    requires
        end1 <= end2,
        0 <= pos,
        forall|i: int| 0 <= i < end1 ==> #[trigger] s1(i) == s2(i),
        check(s1, end1, pos, jumps, budget, prev, had_incomplete),
        check(s2, end2, pos, jumps, budget, prev, had_incomplete),
    ensures
        end2 - end1 <= 7,
    decreases end1 - pos,
{
    let (op, p1) = dec_type(s1, end1, pos)->0;
    lemma_dec_from_bounds(s1, end1, pos, 0, type_sizes(), 0);
    lemma_dec_from_bounds(s1, end1, p1, 1, asn_sizes(), 0);
    lemma_dec_from_bounds(s1, end1, p1, 2, match_sizes(), 0);
    lemma_dec_from_bounds(s1, end1, p1, 17, jump_sizes(), 0);
    lemma_dec_from_extends(s1, end1, s2, end2, pos, 0, type_sizes(), 0);
    match op {
        Instruction::Return => {
            lemma_dec_from_extends(s1, end1, s2, end2, p1, 1, asn_sizes(), 0);
            let (_, p2) = dec_asn(s1, end1, p1)->0;
            if jumps.len() > 0 {
                lemma_accepting_runs_end_together(
                    s1,
                    end1,
                    s2,
                    end2,
                    p2,
                    jumps.drop_last(),
                    jumps.last().1,
                    Instruction::Jump,
                    had_incomplete,
                );
            }
        },
        Instruction::Jump => {
            lemma_dec_from_extends(s1, end1, s2, end2, p1, 17, jump_sizes(), 0);
            let (j, p2) = dec_jump(s1, end1, p1)->0;
            lemma_accepting_runs_end_together(
                s1,
                end1,
                s2,
                end2,
                p2,
                jumps.push((p2 + j, budget - 1)),
                budget - 1,
                Instruction::Jump,
                had_incomplete,
            );
        },
        Instruction::Match => {
            lemma_dec_from_extends(s1, end1, s2, end2, p1, 2, match_sizes(), 0);
            let (m, p2) = dec_match(s1, end1, p1)->0;
            let len = match_len(m as u32);
            lemma_accepting_runs_end_together(
                s1,
                end1,
                s2,
                end2,
                p2,
                jumps,
                budget - len,
                Instruction::Match,
                len < 8,
            );
        },
        Instruction::Default => {
            lemma_dec_from_extends(s1, end1, s2, end2, p1, 1, asn_sizes(), 0);
            let (_, p2) = dec_asn(s1, end1, p1)->0;
            lemma_accepting_runs_end_together(
                s1,
                end1,
                s2,
                end2,
                p2,
                jumps,
                budget,
                Instruction::Default,
                had_incomplete,
            );
        },
    }
}

/// No accepted asmap extends another accepted for the same budget: appending bytes to
/// an accepted asmap, or cutting bytes off the end of one, never gives one the validator
/// accepts.
pub proof fn lemma_accepted_not_extendable(a: Seq<u8>, b: Seq<u8>, budget: int)
    requires
        accepts(a, budget),
        accepts(a + b, budget),
    ensures
        b.len() == 0,
{
    let ab = a + b;
    assert forall|i: int| 0 <= i < 8 * a.len() implies #[trigger] bits_of(a)(i) == bits_of(ab)(i) by {
        assert(byte_or_zero(a, i / 8) == byte_or_zero(ab, i / 8));
    }
    lemma_accepting_runs_end_together(
        bits_of(a),
        8 * a.len() as int,
        bits_of(ab),
        8 * ab.len() as int,
        0,
        Seq::empty(),
        budget,
        Instruction::Jump,
        false,
    );
}

/// Pending jumps `big` at the same targets as `small`, each saved with at least as
/// large a budget.
pub open spec fn budgets_dominate(small: Seq<(int, int)>, big: Seq<(int, int)>) -> bool {
    &&& small.len() == big.len()
    &&& forall|i: int|
        0 <= i < small.len() ==> #[trigger] small[i].0 == big[i].0 && small[i].1 <= big[i].1
}

proof fn lemma_check_budget_monotone(
    s: spec_fn(int) -> bool,
    end: int,
    pos: int,
    small: Seq<(int, int)>,
    big: Seq<(int, int)>,
    budget: int,
    larger: int,
    prev: Instruction,
    had_incomplete: bool,
)
    requires
        check(s, end, pos, small, budget, prev, had_incomplete),
        0 <= budget <= larger,
        budgets_dominate(small, big),
        forall|i: int| 0 <= i < small.len() ==> 0 <= #[trigger] small[i].1,
    ensures
        check(s, end, pos, big, larger, prev, had_incomplete),
    decreases end - pos,
{
    if small.len() > 0 {
        assert(small.last().0 == big.last().0 && small.last().1 <= big.last().1);
    }
    let (op, p1) = dec_type(s, end, pos)->0;
    lemma_dec_from_bounds(s, end, pos, 0, type_sizes(), 0);
    lemma_dec_from_bounds(s, end, p1, 1, asn_sizes(), 0);
    lemma_dec_from_bounds(s, end, p1, 2, match_sizes(), 0);
    lemma_dec_from_bounds(s, end, p1, 17, jump_sizes(), 0);
    match op {
        Instruction::Return => {
            let (_, p2) = dec_asn(s, end, p1)->0;
            if small.len() > 0 {
                assert(budgets_dominate(small.drop_last(), big.drop_last()));
                lemma_check_budget_monotone(
                    s,
                    end,
                    p2,
                    small.drop_last(),
                    big.drop_last(),
                    small.last().1,
                    big.last().1,
                    Instruction::Jump,
                    had_incomplete,
                );
            }
        },
        Instruction::Jump => {
            let (j, p2) = dec_jump(s, end, p1)->0;
            let small2 = small.push((p2 + j, budget - 1));
            let big2 = big.push((p2 + j, larger - 1));
            assert(budgets_dominate(small2, big2));
            lemma_check_budget_monotone(
                s,
                end,
                p2,
                small2,
                big2,
                budget - 1,
                larger - 1,
                Instruction::Jump,
                had_incomplete,
            );
        },
        Instruction::Match => {
            let (m, p2) = dec_match(s, end, p1)->0;
            let len = match_len(m as u32);
            lemma_check_budget_monotone(
                s,
                end,
                p2,
                small,
                big,
                budget - len,
                larger - len,
                Instruction::Match,
                len < 8,
            );
        },
        Instruction::Default => {
            let (_, p2) = dec_asn(s, end, p1)->0;
            lemma_check_budget_monotone(
                s,
                end,
                p2,
                small,
                big,
                budget,
                larger,
                Instruction::Default,
                had_incomplete,
            );
        },
    }
}

/// A larger address-bit budget never turns an accepted asmap into a rejected one.
pub proof fn lemma_accepts_larger_budget(code: Seq<u8>, budget: int, larger: int)
    requires
        0 <= budget <= larger,
        accepts(code, budget),
    ensures
        accepts(code, larger),
{
    lemma_check_budget_monotone(
        bits_of(code),
        8 * code.len() as int,
        0,
        Seq::empty(),
        Seq::empty(),
        budget,
        larger,
        Instruction::Jump,
        false,
    );
}

} // verus!
