//! The shape of a well-formed asmap, stated as a grammar, and its agreement with the
//! validator.
use vstd::prelude::*;
use crate::format::{
    dec_asn, dec_jump, dec_match, dec_type, lemma_dec_from_bounds, match_len, Instruction,
    asn_sizes, bits_of, jump_sizes, match_sizes, type_sizes,
};
use crate::validate::{accepts, check, zero_bits};

verus! {

/// Where the well-formed subtree of bytecode starting at `pos` ends, if there is one.
///
/// A subtree is one of:
/// - RETURN asn, unless it directly follows a DEFAULT;
/// - DEFAULT asn followed by a subtree that starts with neither RETURN nor DEFAULT;
/// - MATCH of `len` address bits (within the `budget` left) followed by a subtree; two
///   MATCHes of fewer than 8 bits may not follow each other;
/// - JUMP `j` (using one address bit) followed by a subtree exactly `j` bits long (taken
///   when the address bit is 0) and then a second subtree (taken when it is 1).
///
/// `had_short` says whether the instruction before was a MATCH of fewer than 8 bits.
pub open spec fn subtree_end(
    s: spec_fn(int) -> bool,
    end: int,
    pos: int,
    budget: int,
    prev: Instruction,
    had_short: bool,
) -> Option<int>
    decreases end - pos,
{
    if pos >= end {
        None
    } else {
        match dec_type(s, end, pos) {
            None => None,
            Some((op, p1)) => {
                proof {
                    lemma_dec_from_bounds(s, end, pos, 0, type_sizes(), 0);
                    lemma_dec_from_bounds(s, end, p1, 1, asn_sizes(), 0);
                    lemma_dec_from_bounds(s, end, p1, 2, match_sizes(), 0);
                    lemma_dec_from_bounds(s, end, p1, 17, jump_sizes(), 0);
                }
                match op {
                    Instruction::Return => {
                        if prev == Instruction::Default {
                            None
                        } else {
                            match dec_asn(s, end, p1) {
                                Some((_, p2)) => Some(p2),
                                None => None,
                            }
                        }
                    },
                    Instruction::Default => {
                        if prev == Instruction::Default {
                            None
                        } else {
                            match dec_asn(s, end, p1) {
                                Some((_, p2)) => subtree_end(
                                    s,
                                    end,
                                    p2,
                                    budget,
                                    Instruction::Default,
                                    had_short,
                                ),
                                None => None,
                            }
                        }
                    },
                    Instruction::Match => {
                        match dec_match(s, end, p1) {
                            Some((m, p2)) => {
                                let len = match_len(m as u32);
                                if len < 8 && prev == Instruction::Match && had_short {
                                    None
                                } else if budget < len {
                                    None
                                } else {
                                    subtree_end(
                                        s,
                                        end,
                                        p2,
                                        budget - len,
                                        Instruction::Match,
                                        len < 8,
                                    )
                                }
                            },
                            None => None,
                        }
                    },
                    Instruction::Jump => {
                        match dec_jump(s, end, p1) {
                            Some((j, p2)) => {
                                if budget < 1 || j > end - p2 {
                                    None
                                } else if subtree_end(
                                    s,
                                    end,
                                    p2,
                                    budget - 1,
                                    Instruction::Jump,
                                    false,
                                ) == Some(p2 + j) {
                                    subtree_end(
                                        s,
                                        end,
                                        p2 + j,
                                        budget - 1,
                                        Instruction::Jump,
                                        false,
                                    )
                                } else {
                                    None
                                }
                            },
                            None => None,
                        }
                    },
                }
            },
        }
    }
}

/// A well-formed asmap for addresses of `budget` bits: one subtree, then at most 7
/// zero bits of padding.
pub open spec fn well_formed_asmap(code: Seq<u8>, budget: int) -> bool {
    let s = bits_of(code);
    let end = 8 * code.len() as int;
    match subtree_end(s, end, 0, budget, Instruction::Jump, false) {
        Some(e) => end - e <= 7 && zero_bits(s, e, end),
        None => false,
    }
}

proof fn lemma_subtree_end_bounds(
    s: spec_fn(int) -> bool,
    end: int,
    pos: int,
    budget: int,
    prev: Instruction,
    had_short: bool,
)
    ensures
        subtree_end(s, end, pos, budget, prev, had_short) matches Some(e) ==> pos < e <= end,
    decreases end - pos,
{
    if pos < end && dec_type(s, end, pos) is Some {
        let (op, p1) = dec_type(s, end, pos)->0;
        lemma_dec_from_bounds(s, end, pos, 0, type_sizes(), 0);
        lemma_dec_from_bounds(s, end, p1, 1, asn_sizes(), 0);
        lemma_dec_from_bounds(s, end, p1, 2, match_sizes(), 0);
        lemma_dec_from_bounds(s, end, p1, 17, jump_sizes(), 0);
        match op {
            Instruction::Default => {
                if dec_asn(s, end, p1) is Some {
                    let (_, p2) = dec_asn(s, end, p1)->0;
                    lemma_subtree_end_bounds(s, end, p2, budget, Instruction::Default, had_short);
                }
            },
            Instruction::Match => {
                if dec_match(s, end, p1) is Some {
                    let (m, p2) = dec_match(s, end, p1)->0;
                    let len = match_len(m as u32);
                    lemma_subtree_end_bounds(s, end, p2, budget - len, Instruction::Match, len < 8);
                }
            },
            Instruction::Jump => {
                if dec_jump(s, end, p1) is Some {
                    let (j, p2) = dec_jump(s, end, p1)->0;
                    if j <= end - p2 {
                        lemma_subtree_end_bounds(
                            s,
                            end,
                            p2 + j,
                            budget - 1,
                            Instruction::Jump,
                            false,
                        );
                    }
                }
            },
            Instruction::Return => {},
        }
    }
}

/// Unless the instruction before was a MATCH, the validator's short-match flag plays
/// no part in its verdict.
proof fn lemma_check_flag_irrelevant(
    s: spec_fn(int) -> bool,
    end: int,
    pos: int,
    jumps: Seq<(int, int)>,
    budget: int,
    prev: Instruction,
    h1: bool,
    h2: bool,
)
    requires
        prev != Instruction::Match,
    ensures
        check(s, end, pos, jumps, budget, prev, h1) == check(s, end, pos, jumps, budget, prev, h2),
    decreases end - pos,
{
    if pos < end && !(jumps.len() > 0 && pos >= jumps.last().0) && dec_type(s, end, pos) is Some {
        let (op, p1) = dec_type(s, end, pos)->0;
        lemma_dec_from_bounds(s, end, pos, 0, type_sizes(), 0);
        lemma_dec_from_bounds(s, end, p1, 1, asn_sizes(), 0);
        lemma_dec_from_bounds(s, end, p1, 2, match_sizes(), 0);
        lemma_dec_from_bounds(s, end, p1, 17, jump_sizes(), 0);
        match op {
            Instruction::Return => {
                if dec_asn(s, end, p1) is Some && jumps.len() > 0 {
                    let (_, p2) = dec_asn(s, end, p1)->0;
                    lemma_check_flag_irrelevant(
                        s,
                        end,
                        p2,
                        jumps.drop_last(),
                        jumps.last().1,
                        Instruction::Jump,
                        h1,
                        h2,
                    );
                }
            },
            Instruction::Default => {
                if dec_asn(s, end, p1) is Some {
                    let (_, p2) = dec_asn(s, end, p1)->0;
                    lemma_check_flag_irrelevant(
                        s,
                        end,
                        p2,
                        jumps,
                        budget,
                        Instruction::Default,
                        h1,
                        h2,
                    );
                }
            },
            Instruction::Jump => {
                if dec_jump(s, end, p1) is Some {
                    let (j, p2) = dec_jump(s, end, p1)->0;
                    lemma_check_flag_irrelevant(
                        s,
                        end,
                        p2,
                        jumps.push((p2 + j, budget - 1)),
                        budget - 1,
                        Instruction::Jump,
                        h1,
                        h2,
                    );
                }
            },
            Instruction::Match => {},
        }
    }
}

/// What follows a subtree that ends at `e` when the jumps `jumps` are pending: the
/// padding if none is, else the innermost target, reached exactly.
pub open spec fn after_subtree(
    s: spec_fn(int) -> bool,
    end: int,
    e: int,
    jumps: Seq<(int, int)>,
) -> bool {
    if jumps.len() == 0 {
        end - e <= 7 && zero_bits(s, e, end)
    } else {
        e == jumps.last().0 && check(
            s,
            end,
            e,
            jumps.drop_last(),
            jumps.last().1,
            Instruction::Jump,
            false,
        )
    }
}

/// The validator accepts from a state exactly when a well-formed subtree starts there
/// and is followed by what the pending jumps call for.
proof fn lemma_check_is_grammar(
    s: spec_fn(int) -> bool,
    end: int,
    pos: int,
    jumps: Seq<(int, int)>,
    budget: int,
    prev: Instruction,
    had_short: bool,
)
    requires
        0 <= budget,
    ensures
        check(s, end, pos, jumps, budget, prev, had_short) == match subtree_end(
            s,
            end,
            pos,
            budget,
            prev,
            had_short,
        ) {
            Some(e) => after_subtree(s, end, e, jumps),
            None => false,
        },
    decreases end - pos,
{
    lemma_subtree_end_bounds(s, end, pos, budget, prev, had_short);
    if pos < end && dec_type(s, end, pos) is Some {
        let (op, p1) = dec_type(s, end, pos)->0;
        lemma_dec_from_bounds(s, end, pos, 0, type_sizes(), 0);
        lemma_dec_from_bounds(s, end, p1, 1, asn_sizes(), 0);
        lemma_dec_from_bounds(s, end, p1, 2, match_sizes(), 0);
        lemma_dec_from_bounds(s, end, p1, 17, jump_sizes(), 0);
        match op {
            Instruction::Return => {
                if dec_asn(s, end, p1) is Some && jumps.len() > 0 {
                    let (_, p2) = dec_asn(s, end, p1)->0;
                    lemma_check_flag_irrelevant(
                        s,
                        end,
                        p2,
                        jumps.drop_last(),
                        jumps.last().1,
                        Instruction::Jump,
                        had_short,
                        false,
                    );
                }
            },
            Instruction::Default => {
                if dec_asn(s, end, p1) is Some {
                    let (_, p2) = dec_asn(s, end, p1)->0;
                    lemma_check_is_grammar(
                        s,
                        end,
                        p2,
                        jumps,
                        budget,
                        Instruction::Default,
                        had_short,
                    );
                }
            },
            Instruction::Match => {
                if dec_match(s, end, p1) is Some {
                    let (m, p2) = dec_match(s, end, p1)->0;
                    let len = match_len(m as u32);
                    if budget >= len {
                        lemma_check_is_grammar(
                            s,
                            end,
                            p2,
                            jumps,
                            budget - len,
                            Instruction::Match,
                            len < 8,
                        );
                    }
                }
            },
            Instruction::Jump => {
                if dec_jump(s, end, p1) is Some {
                    let (j, p2) = dec_jump(s, end, p1)->0;
                    if budget >= 1 && j <= end - p2 {
                        let t = p2 + j;
                        let pushed = jumps.push((t, budget - 1));
                        lemma_check_flag_irrelevant(
                            s,
                            end,
                            p2,
                            pushed,
                            budget - 1,
                            Instruction::Jump,
                            had_short,
                            false,
                        );
                        lemma_check_is_grammar(
                            s,
                            end,
                            p2,
                            pushed,
                            budget - 1,
                            Instruction::Jump,
                            false,
                        );
                        lemma_check_is_grammar(
                            s,
                            end,
                            t,
                            jumps,
                            budget - 1,
                            Instruction::Jump,
                            false,
                        );
                        lemma_subtree_end_bounds(s, end, p2, budget - 1, Instruction::Jump, false);
                        lemma_subtree_end_bounds(s, end, t, budget - 1, Instruction::Jump, false);
                        assert(pushed.drop_last() =~= jumps);
                    }
                }
            },
        }
    }
}

/// The validator accepts exactly the well-formed asmaps.
pub proof fn lemma_accepts_iff_well_formed(code: Seq<u8>, budget: int)
    requires
        0 <= budget,
    ensures
        accepts(code, budget) == well_formed_asmap(code, budget),
{
    lemma_check_is_grammar(
        bits_of(code),
        8 * code.len() as int,
        0,
        Seq::empty(),
        budget,
        Instruction::Jump,
        false,
    );
}

} // verus!

verus! {

/// The validator rejects a DEFAULT only right after another DEFAULT: at a DEFAULT its
/// verdict is the same whichever other instruction, if any, came before it.
pub proof fn lemma_default_verdict_ignores_prev(
    s: spec_fn(int) -> bool,
    end: int,
    pos: int,
    jumps: Seq<(int, int)>,
    budget: int,
    prev1: Instruction,
    had1: bool,
    prev2: Instruction,
    had2: bool,
)
    requires
        dec_type(s, end, pos) is Some,
        (dec_type(s, end, pos)->0).0 == Instruction::Default,
        prev1 != Instruction::Default,
        prev2 != Instruction::Default,
    ensures
        check(s, end, pos, jumps, budget, prev1, had1) == check(
            s,
            end,
            pos,
            jumps,
            budget,
            prev2,
            had2,
        ),
{
    let (_, p1) = dec_type(s, end, pos)->0;
    if dec_asn(s, end, p1) is Some {
        let (_, p2) = dec_asn(s, end, p1)->0;
        lemma_check_flag_irrelevant(s, end, p2, jumps, budget, Instruction::Default, had1, had2);
    }
}

/// Likewise in the grammar: whether a subtree starts at a DEFAULT, and where it ends,
/// is the same whichever other instruction came before it.
pub proof fn lemma_default_subtree_ignores_prev(
    s: spec_fn(int) -> bool,
    end: int,
    pos: int,
    budget: int,
    prev1: Instruction,
    had1: bool,
    prev2: Instruction,
    had2: bool,
)
    requires
        dec_type(s, end, pos) is Some,
        (dec_type(s, end, pos)->0).0 == Instruction::Default,
        prev1 != Instruction::Default,
        prev2 != Instruction::Default,
    ensures
        subtree_end(s, end, pos, budget, prev1, had1) == subtree_end(
            s,
            end,
            pos,
            budget,
            prev2,
            had2,
        ),
{
    let (_, p1) = dec_type(s, end, pos)->0;
    if dec_asn(s, end, p1) is Some {
        let (_, p2) = dec_asn(s, end, p1)->0;
        lemma_subtree_flag_irrelevant(s, end, p2, budget, Instruction::Default, had1, had2);
    }
}

/// Unless the instruction before was a MATCH, the grammar's short-match flag plays no
/// part in where a subtree ends.
proof fn lemma_subtree_flag_irrelevant(
    s: spec_fn(int) -> bool,
    end: int,
    pos: int,
    budget: int,
    prev: Instruction,
    h1: bool,
    h2: bool,
)
    requires
        prev != Instruction::Match,
    ensures
        subtree_end(s, end, pos, budget, prev, h1) == subtree_end(s, end, pos, budget, prev, h2),
    decreases end - pos,
{
    if pos < end && dec_type(s, end, pos) is Some {
        let (op, p1) = dec_type(s, end, pos)->0;
        lemma_dec_from_bounds(s, end, pos, 0, type_sizes(), 0);
        lemma_dec_from_bounds(s, end, p1, 1, asn_sizes(), 0);
        if op == Instruction::Default && dec_asn(s, end, p1) is Some {
            let (_, p2) = dec_asn(s, end, p1)->0;
            lemma_subtree_flag_irrelevant(s, end, p2, budget, Instruction::Default, h1, h2);
        }
    }
}

} // verus!

verus! {

/// The instruction before matters to the validator only in two ways: a DEFAULT may not
/// be followed by a RETURN or another DEFAULT, and a MATCH of fewer than 8 bits may not
/// be followed by another one. Wherever neither applies, the verdict is the same
/// whichever instruction came before.
pub proof fn lemma_verdict_ignores_prev(
    s: spec_fn(int) -> bool,
    end: int,
    pos: int,
    jumps: Seq<(int, int)>,
    budget: int,
    prev1: Instruction,
    had1: bool,
    prev2: Instruction,
    had2: bool,
)
    requires
        dec_type(s, end, pos) is Some,
        ({
            let op = (dec_type(s, end, pos)->0).0;
            &&& (op == Instruction::Default || op == Instruction::Return) ==> prev1
                != Instruction::Default && prev2 != Instruction::Default
            &&& op == Instruction::Match ==> !(prev1 == Instruction::Match && had1) && !(prev2
                == Instruction::Match && had2)
        }),
    ensures
        check(s, end, pos, jumps, budget, prev1, had1) == check(
            s,
            end,
            pos,
            jumps,
            budget,
            prev2,
            had2,
        ),
{
    let (op, p1) = dec_type(s, end, pos)->0;
    lemma_dec_from_bounds(s, end, pos, 0, type_sizes(), 0);
    match op {
        Instruction::Default => {
            lemma_default_verdict_ignores_prev(
                s,
                end,
                pos,
                jumps,
                budget,
                prev1,
                had1,
                prev2,
                had2,
            );
        },
        Instruction::Return => {
            if dec_asn(s, end, p1) is Some && jumps.len() > 0 {
                let (_, p2) = dec_asn(s, end, p1)->0;
                lemma_check_flag_irrelevant(
                    s,
                    end,
                    p2,
                    jumps.drop_last(),
                    jumps.last().1,
                    Instruction::Jump,
                    had1,
                    had2,
                );
            }
        },
        Instruction::Jump => {
            if dec_jump(s, end, p1) is Some {
                let (j, p2) = dec_jump(s, end, p1)->0;
                lemma_check_flag_irrelevant(
                    s,
                    end,
                    p2,
                    jumps.push((p2 + j, budget - 1)),
                    budget - 1,
                    Instruction::Jump,
                    had1,
                    had2,
                );
            }
        },
        Instruction::Match => {},
    }
}

} // verus!
