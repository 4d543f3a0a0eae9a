//! What validation buys: a validated asmap answers every address.
use vstd::prelude::*;
use vstd::std_specs::bits::{axiom_u32_leading_zeros, u32_leading_zeros};
use crate::format::{
    bits_of, dec_asn, dec_jump, dec_match, dec_type, lemma_dec_from_bounds, lemma_table_totals,
    match_len, Instruction, asn_sizes, jump_sizes, match_sizes, type_sizes,
};
use crate::validate::{check, valid_asmap};
use crate::interpret::{lookup_spec, lookup_steps, run, run_steps};

verus! {

/// A MATCH value (from 2 to 511) compares between 1 and 8 address bits.
pub proof fn lemma_match_len_bounds(m: u32)
    requires
        2 <= m <= 511,
    ensures
        1 <= match_len(m) <= 8,
        u32_leading_zeros(m) <= 31,
{
    axiom_u32_leading_zeros(m);
    let z = u32_leading_zeros(m);
    assert(z <= 32 && (z < 32 ==> (m >> (31u32 - z) as u32) & 1u32 != 0u32) && m >> (32u32 - z) as u32
        == 0 && 2 <= m <= 511 ==> 23 <= z <= 30) by (bit_vector);
}

/// A validator run that has a jump `x` pending below the jumps `rest` reaches the target
/// of `x` with exactly the jumps beneath it still pending and the budget saved with it.
pub proof fn lemma_reaches_pending_target(
    s: spec_fn(int) -> bool,
    end: int,
    pos: int,
    below: Seq<(int, int)>,
    x: (int, int),
    rest: Seq<(int, int)>,
    budget: int,
    prev: Instruction,
    had_incomplete: bool,
) -> (had: bool)
    requires
        check(s, end, pos, below.push(x) + rest, budget, prev, had_incomplete),
    ensures
        check(s, end, x.0, below, x.1, Instruction::Jump, had),
    decreases end - pos,
{
    let jumps = below.push(x) + rest;
    let (op, p1) = dec_type(s, end, pos)->0;
    lemma_dec_from_bounds(s, end, pos, 0, type_sizes(), 0);
    lemma_dec_from_bounds(s, end, p1, 1, asn_sizes(), 0);
    lemma_dec_from_bounds(s, end, p1, 2, match_sizes(), 0);
    lemma_dec_from_bounds(s, end, p1, 17, jump_sizes(), 0);
    match op {
        Instruction::Return => {
            let (_, p2) = dec_asn(s, end, p1)->0;
            if rest.len() == 0 {
                assert(jumps =~= below.push(x));
                assert(jumps.drop_last() =~= below);
                had_incomplete
            } else {
                assert(jumps.drop_last() =~= below.push(x) + rest.drop_last());
                assert(jumps.last() == rest.last());
                lemma_reaches_pending_target(
                    s,
                    end,
                    p2,
                    below,
                    x,
                    rest.drop_last(),
                    jumps.last().1,
                    Instruction::Jump,
                    had_incomplete,
                )
            }
        },
        Instruction::Jump => {
            let (j, p2) = dec_jump(s, end, p1)->0;
            let pushed = (p2 + j, budget - 1);
            assert(jumps.push(pushed) =~= below.push(x) + rest.push(pushed));
            lemma_reaches_pending_target(
                s,
                end,
                p2,
                below,
                x,
                rest.push(pushed),
                budget - 1,
                Instruction::Jump,
                had_incomplete,
            )
        },
        Instruction::Match => {
            let (m, p2) = dec_match(s, end, p1)->0;
            let len = match_len(m as u32);
            lemma_reaches_pending_target(
                s,
                end,
                p2,
                below,
                x,
                rest,
                budget - len,
                Instruction::Match,
                len < 8,
            )
        },
        Instruction::Default => {
            let (_, p2) = dec_asn(s, end, p1)->0;
            lemma_reaches_pending_target(
                s,
                end,
                p2,
                below,
                x,
                rest,
                budget,
                Instruction::Default,
                had_incomplete,
            )
        },
    }
}

/// From any state the validator accepts, with the address bits consumed so far and the
/// remaining budget adding up to 128, running the bytecode gives an answer.
pub proof fn lemma_accepted_state_runs(
    s: spec_fn(int) -> bool,
    end: int,
    pos: int,
    jumps: Seq<(int, int)>,
    budget: int,
    prev: Instruction,
    had_incomplete: bool,
    ip: u128,
    ip_bit: int,
    default_asn: u32,
)
    requires
        check(s, end, pos, jumps, budget, prev, had_incomplete),
        0 <= budget,
        0 <= ip_bit,
        ip_bit + budget == 128,
    ensures
        run(s, end, pos, ip, ip_bit, default_asn) is Some,
    decreases end - pos,
{
    let (op, p1) = dec_type(s, end, pos)->0;
    lemma_dec_from_bounds(s, end, pos, 0, type_sizes(), 0);
    lemma_dec_from_bounds(s, end, p1, 1, asn_sizes(), 0);
    lemma_dec_from_bounds(s, end, p1, 2, match_sizes(), 0);
    lemma_dec_from_bounds(s, end, p1, 17, jump_sizes(), 0);
    lemma_table_totals();
    match op {
        Instruction::Return => {},
        Instruction::Jump => {
            let (j, p2) = dec_jump(s, end, p1)->0;
            let target = (p2 + j, budget - 1);
            if crate::interpret::ip_bit_set(ip, ip_bit) {
                assert(jumps.push(target) + Seq::<(int, int)>::empty() =~= jumps.push(target));
                let had = lemma_reaches_pending_target(
                    s,
                    end,
                    p2,
                    jumps,
                    target,
                    Seq::empty(),
                    budget - 1,
                    Instruction::Jump,
                    had_incomplete,
                );
                lemma_accepted_state_runs(
                    s,
                    end,
                    p2 + j,
                    jumps,
                    budget - 1,
                    Instruction::Jump,
                    had,
                    ip,
                    ip_bit + 1,
                    default_asn,
                );
            } else {
                lemma_accepted_state_runs(
                    s,
                    end,
                    p2,
                    jumps.push(target),
                    budget - 1,
                    Instruction::Jump,
                    had_incomplete,
                    ip,
                    ip_bit + 1,
                    default_asn,
                );
            }
        },
        Instruction::Match => {
            let (m, p2) = dec_match(s, end, p1)->0;
            lemma_match_len_bounds(m as u32);
            let len = match_len(m as u32);
            lemma_accepted_state_runs(
                s,
                end,
                p2,
                jumps,
                budget - len,
                Instruction::Match,
                len < 8,
                ip,
                ip_bit + len,
                default_asn,
            );
        },
        Instruction::Default => {
            let (asn, p2) = dec_asn(s, end, p1)->0;
            lemma_accepted_state_runs(
                s,
                end,
                p2,
                jumps,
                budget,
                Instruction::Default,
                had_incomplete,
                ip,
                ip_bit,
                asn as u32,
            );
        },
    }
}

/// From any state the validator accepts, with the address bits consumed so far and the
/// remaining budget adding up to 128, running the bytecode decodes at most two
/// instructions per budget bit and three more (two more right after a DEFAULT): every
/// JUMP and every passed MATCH uses up address bits, and every DEFAULT is followed by
/// a JUMP or a MATCH.
pub proof fn lemma_accepted_state_steps(
    s: spec_fn(int) -> bool,
    end: int,
    pos: int,
    jumps: Seq<(int, int)>,
    budget: int,
    prev: Instruction,
    had_incomplete: bool,
    ip: u128,
    ip_bit: int,
)
    requires
        check(s, end, pos, jumps, budget, prev, had_incomplete),
        0 <= budget,
        0 <= ip_bit,
        ip_bit + budget == 128,
    ensures
        run_steps(s, end, pos, ip, ip_bit) <= 2 * budget + if prev == Instruction::Default {
            2int
        } else {
            3int
        },
    decreases end - pos,
{
    let (op, p1) = dec_type(s, end, pos)->0;
    lemma_dec_from_bounds(s, end, pos, 0, type_sizes(), 0);
    lemma_dec_from_bounds(s, end, p1, 1, asn_sizes(), 0);
    lemma_dec_from_bounds(s, end, p1, 2, match_sizes(), 0);
    lemma_dec_from_bounds(s, end, p1, 17, jump_sizes(), 0);
    lemma_table_totals();
    match op {
        Instruction::Return => {},
        Instruction::Jump => {
            let (j, p2) = dec_jump(s, end, p1)->0;
            let target = (p2 + j, budget - 1);
            if crate::interpret::ip_bit_set(ip, ip_bit) {
                assert(jumps.push(target) + Seq::<(int, int)>::empty() =~= jumps.push(target));
                let had = lemma_reaches_pending_target(
                    s,
                    end,
                    p2,
                    jumps,
                    target,
                    Seq::empty(),
                    budget - 1,
                    Instruction::Jump,
                    had_incomplete,
                );
                lemma_accepted_state_steps(
                    s,
                    end,
                    p2 + j,
                    jumps,
                    budget - 1,
                    Instruction::Jump,
                    had,
                    ip,
                    ip_bit + 1,
                );
            } else {
                lemma_accepted_state_steps(
                    s,
                    end,
                    p2,
                    jumps.push(target),
                    budget - 1,
                    Instruction::Jump,
                    had_incomplete,
                    ip,
                    ip_bit + 1,
                );
            }
        },
        Instruction::Match => {
            let (m, p2) = dec_match(s, end, p1)->0;
            lemma_match_len_bounds(m as u32);
            let len = match_len(m as u32);
            lemma_accepted_state_steps(
                s,
                end,
                p2,
                jumps,
                budget - len,
                Instruction::Match,
                len < 8,
                ip,
                ip_bit + len,
            );
        },
        Instruction::Default => {
            let (_, p2) = dec_asn(s, end, p1)->0;
            lemma_accepted_state_steps(
                s,
                end,
                p2,
                jumps,
                budget,
                Instruction::Default,
                had_incomplete,
                ip,
                ip_bit,
            );
        },
    }
}

/// A lookup in a validated asmap decodes at most 2 * 128 + 3 instructions, however
/// long the asmap is.
pub proof fn lemma_valid_asmap_lookup_steps(code: Seq<u8>, ip: u128)
    requires
        valid_asmap(code),
    ensures
        lookup_steps(code, ip) <= 2 * 128 + 3,
{
    lemma_accepted_state_steps(
        bits_of(code),
        8 * code.len() as int,
        0,
        Seq::empty(),
        128,
        Instruction::Jump,
        false,
        ip,
        0,
    );
}

/// Lookups in a validated asmap are total: every 128-bit address gets an answer.
pub proof fn lemma_valid_asmap_lookup_total(code: Seq<u8>, ip: u128)
    requires
        valid_asmap(code),
    ensures
        lookup_spec(code, ip) is Some,
{
    lemma_accepted_state_runs(
        bits_of(code),
        8 * code.len() as int,
        0,
        Seq::empty(),
        128,
        Instruction::Jump,
        false,
        ip,
        0,
        0,
    );
}

} // verus!
