//! How a lookup treats its default ASN.
use vstd::prelude::*;
use crate::format::{
    dec_asn, dec_match, dec_type, lemma_dec_from_bounds, lemma_table_totals, match_len,
    Instruction, asn_sizes, jump_sizes, match_sizes, type_sizes,
};
use crate::interpret::{ip_window, low_bits, run};

verus! {

/// Starting from a nonzero default, a lookup never answers 0: every ASN that a RETURN
/// or a DEFAULT holds is at least 1.
pub proof fn lemma_run_nonzero_default(
    s: spec_fn(int) -> bool,
    end: int,
    pos: int,
    ip: u128,
    ip_bit: int,
    default_asn: u32,
)
    requires
        default_asn != 0,
    ensures
        run(s, end, pos, ip, ip_bit, default_asn) != Some(0u32),
    decreases end - pos,
{
    if pos < end && dec_type(s, end, pos) is Some {
        let (op, p1) = dec_type(s, end, pos)->0;
        lemma_dec_from_bounds(s, end, pos, 0, type_sizes(), 0);
        lemma_dec_from_bounds(s, end, p1, 1, asn_sizes(), 0);
        lemma_dec_from_bounds(s, end, p1, 2, match_sizes(), 0);
        lemma_dec_from_bounds(s, end, p1, 17, jump_sizes(), 0);
        lemma_table_totals();
        match op {
            Instruction::Return => {},
            Instruction::Jump => {
                if crate::format::dec_jump(s, end, p1) is Some {
                    let (j, p2) = crate::format::dec_jump(s, end, p1)->0;
                    if p2 + j <= end {
                        lemma_run_nonzero_default(s, end, p2 + j, ip, ip_bit + 1, default_asn);
                    }
                    lemma_run_nonzero_default(s, end, p2, ip, ip_bit + 1, default_asn);
                }
            },
            Instruction::Match => {
                if dec_match(s, end, p1) is Some {
                    let (m, p2) = dec_match(s, end, p1)->0;
                    let len = match_len(m as u32);
                    lemma_run_nonzero_default(s, end, p2, ip, ip_bit + len, default_asn);
                }
            },
            Instruction::Default => {
                if dec_asn(s, end, p1) is Some {
                    let (asn, p2) = dec_asn(s, end, p1)->0;
                    lemma_run_nonzero_default(s, end, p2, ip, ip_bit, asn as u32);
                }
            },
        }
    }
}

/// The default ASN a lookup starts from shows only as the answer of a failed MATCH
/// reached before any DEFAULT: the lookup with default `d` gives `d` exactly where the
/// lookup with default 0 gives 0, and otherwise gives what that lookup gives. So a
/// DEFAULT replaces any earlier default, and a JUMP carries the default into both
/// branches.
pub proof fn lemma_run_default_replaced(
    s: spec_fn(int) -> bool,
    end: int,
    pos: int,
    ip: u128,
    ip_bit: int,
    d: u32,
)
    ensures
        run(s, end, pos, ip, ip_bit, d) == if run(s, end, pos, ip, ip_bit, 0) == Some(0u32) {
            Some(d)
        } else {
            run(s, end, pos, ip, ip_bit, 0)
        },
    decreases end - pos,
{
    if pos < end && dec_type(s, end, pos) is Some {
        let (op, p1) = dec_type(s, end, pos)->0;
        lemma_dec_from_bounds(s, end, pos, 0, type_sizes(), 0);
        lemma_dec_from_bounds(s, end, p1, 1, asn_sizes(), 0);
        lemma_dec_from_bounds(s, end, p1, 2, match_sizes(), 0);
        lemma_dec_from_bounds(s, end, p1, 17, jump_sizes(), 0);
        lemma_table_totals();
        match op {
            Instruction::Return => {},
            Instruction::Jump => {
                if crate::format::dec_jump(s, end, p1) is Some {
                    let (j, p2) = crate::format::dec_jump(s, end, p1)->0;
                    if p2 + j <= end {
                        lemma_run_default_replaced(s, end, p2 + j, ip, ip_bit + 1, d);
                    }
                    lemma_run_default_replaced(s, end, p2, ip, ip_bit + 1, d);
                }
            },
            Instruction::Match => {
                if dec_match(s, end, p1) is Some {
                    let (m, p2) = dec_match(s, end, p1)->0;
                    let len = match_len(m as u32);
                    lemma_run_default_replaced(s, end, p2, ip, ip_bit + len, d);
                }
            },
            Instruction::Default => {
                if dec_asn(s, end, p1) is Some {
                    let (asn, p2) = dec_asn(s, end, p1)->0;
                    lemma_run_nonzero_default(s, end, p2, ip, ip_bit, asn as u32);
                }
            },
        }
    }
}

/// A DEFAULT `a` in front of code that, run with default 0, ends in a failed MATCH
/// makes the lookup answer `a`, whatever default was in force before it.
pub proof fn lemma_default_answers_failed_match(
    s: spec_fn(int) -> bool,
    end: int,
    pos: int,
    ip: u128,
    ip_bit: int,
    d: u32,
)
    requires
        pos < end,
        dec_type(s, end, pos) is Some,
        ({
            let (op, p1) = dec_type(s, end, pos)->0;
            &&& op == Instruction::Default
            &&& dec_asn(s, end, p1) is Some
            &&& run(s, end, (dec_asn(s, end, p1)->0).1, ip, ip_bit, 0) == Some(0u32)
        }),
    ensures
        run(s, end, pos, ip, ip_bit, d) == Some(
            (dec_asn(s, end, (dec_type(s, end, pos)->0).1)->0).0 as u32,
        ),
{
    let (_, p1) = dec_type(s, end, pos)->0;
    let (a, p2) = dec_asn(s, end, p1)->0;
    lemma_dec_from_bounds(s, end, pos, 0, type_sizes(), 0);
    lemma_dec_from_bounds(s, end, p1, 1, asn_sizes(), 0);
    lemma_table_totals();
    lemma_run_default_replaced(s, end, p2, ip, ip_bit, a as u32);
}

/// A DEFAULT `a` directly followed by a MATCH that the address fails makes the lookup
/// answer `a`, whatever default was in force before it.
pub proof fn lemma_default_then_failed_match(
    s: spec_fn(int) -> bool,
    end: int,
    pos: int,
    ip: u128,
    ip_bit: int,
    d: u32,
)
    requires
        pos < end,
        0 <= ip_bit,
        dec_type(s, end, pos) is Some,
        ({
            let (op, p1) = dec_type(s, end, pos)->0;
            &&& op == Instruction::Default
            &&& dec_asn(s, end, p1) is Some
            &&& (dec_asn(s, end, p1)->0).1 < end
            &&& dec_type(s, end, (dec_asn(s, end, p1)->0).1) is Some
        }),
        ({
            let (_, p1) = dec_type(s, end, pos)->0;
            let (_, p2) = dec_asn(s, end, p1)->0;
            let (op2, p3) = dec_type(s, end, p2)->0;
            &&& op2 == Instruction::Match
            &&& dec_match(s, end, p3) is Some
            &&& ip_bit + match_len((dec_match(s, end, p3)->0).0 as u32) <= 128
            &&& ip_window(ip, ip_bit, match_len((dec_match(s, end, p3)->0).0 as u32)) != low_bits(
                (dec_match(s, end, p3)->0).0 as u32,
                match_len((dec_match(s, end, p3)->0).0 as u32),
            )
        }),
    ensures
        run(s, end, pos, ip, ip_bit, d) == Some(
            (dec_asn(s, end, (dec_type(s, end, pos)->0).1)->0).0 as u32,
        ),
{
    let (_, p1) = dec_type(s, end, pos)->0;
    let (a, p2) = dec_asn(s, end, p1)->0;
    let (_, p3) = dec_type(s, end, p2)->0;
    let (m, _) = dec_match(s, end, p3)->0;
    lemma_dec_from_bounds(s, end, pos, 0, type_sizes(), 0);
    lemma_dec_from_bounds(s, end, p1, 1, asn_sizes(), 0);
    lemma_dec_from_bounds(s, end, p2, 0, type_sizes(), 0);
    lemma_dec_from_bounds(s, end, p3, 2, match_sizes(), 0);
    lemma_table_totals();
    crate::totality::lemma_match_len_bounds(m as u32);
    assert(run(s, end, p2, ip, ip_bit, a as u32) == Some(a as u32));
    assert(run(s, end, pos, ip, ip_bit, d) == run(s, end, p2, ip, ip_bit, a as u32));
}

} // verus!
