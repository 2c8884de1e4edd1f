//! Termination witnesses for compiled patterns.
//!
//! The evaluators require a program that admits a rank
//! ([`crate::semantics::has_rank`]): an assignment of a measure to every
//! address under which every `Jmp`/`Split` strictly descends, so that only
//! consuming an input symbol can bring the search back to a higher measure.
//! This module constructs such a rank for the code of every productive
//! pattern ([`crate::compile::productive`]): block by block, each block is
//! ranked relative to a bound `e` on the rank of whatever address follows it.
//! A repetition's back-jump is the one place a target lies behind its source;
//! there the body's entry rank is independent of the bound chosen for the
//! body's exit — precisely because a productive repetition body consumes a
//! symbol on every path, which breaks the descent obligation — so the
//! enclosing `Split` can be ranked above the body's entry and below the
//! back-jump.

use crate::compile::{
    compile_spec, emit_spec, lemma_emit_spec_next, lemma_emit_targets, lemma_parse_spec_bounds,
    lemma_parse_spec_size, nullable, parse_spec, productive, re_size, Regexp,
};
use crate::instruction::Instr;
use crate::semantics::{has_rank, rank_ok_at, ranked, wf_prog};
use vstd::prelude::*;

verus! {

/// Every pattern compiles to at least one instruction.
pub proof fn lemma_re_size_pos(r: Regexp)
    ensures
        re_size(r) >= 1,
    decreases r,
{
    match r {
        Regexp::Char(_) => {},
        Regexp::Cat(a, _) => {
            lemma_re_size_pos(*a);
        },
        Regexp::Chc(_, _) => {},
        Regexp::Rep(_) => {},
    }
}

/// The code of `r` sits in `prog` at address `pc`: the shape that the
/// emission rules guarantee, read off instruction by instruction.
pub open spec fn has_code(prog: Seq<Instr>, r: Regexp, pc: int) -> bool
    decreases r,
{
    match r {
        Regexp::Char(c) => {
            &&& 0 <= pc
            &&& pc + 1 <= prog.len()
            &&& prog[pc] == Instr::Char(c)
        },
        Regexp::Cat(a, b) => {
            &&& has_code(prog, *a, pc)
            &&& has_code(prog, *b, pc + re_size(*a))
        },
        Regexp::Chc(a, b) => {
            let ja = pc + 1 + re_size(*a);
            let end = ja + 1 + re_size(*b);
            &&& 0 <= pc
            &&& end <= prog.len()
            &&& prog[pc] == Instr::Split((pc + 1) as usize, (ja + 1) as usize)
            &&& has_code(prog, *a, pc + 1)
            &&& prog[ja] == Instr::Jmp(end as usize)
            &&& has_code(prog, *b, ja + 1)
        },
        Regexp::Rep(a) => {
            let ja = pc + 1 + re_size(*a);
            &&& 0 <= pc
            &&& ja + 1 <= prog.len()
            &&& prog[pc] == Instr::Split((pc + 1) as usize, (ja + 1) as usize)
            &&& has_code(prog, *a, pc + 1)
            &&& prog[ja] == Instr::Jmp(pc as usize)
        },
    }
}

/// A program that contains the emitted block of `r` at `pc`, instruction for
/// instruction, has the code of `r` at `pc`.
pub proof fn lemma_emit_has_code(prog: Seq<Instr>, r: Regexp, pc: int)
    requires
        0 <= pc,
        pc + re_size(r) <= prog.len(),
        prog.len() <= usize::MAX,
        forall|k: int| 0 <= k < re_size(r) ==> prog[pc + k] == #[trigger] emit_spec(r, pc).1[k],
    ensures
        has_code(prog, r, pc),
    decreases r,
{
    lemma_emit_spec_next(r, pc);
    match r {
        Regexp::Char(_) => {
            assert(prog[pc + 0] == emit_spec(r, pc).1[0]);
        },
        Regexp::Cat(a, b) => {
            let sa = re_size(*a) as int;
            let sb = re_size(*b) as int;
            lemma_emit_spec_next(*a, pc);
            lemma_emit_spec_next(*b, pc + sa);
            assert forall|k: int| 0 <= k < sa implies prog[pc + k] == #[trigger] emit_spec(
                *a,
                pc,
            ).1[k] by {
                assert(prog[pc + k] == emit_spec(r, pc).1[k]);
                assert(emit_spec(r, pc).1[k] == emit_spec(*a, pc).1[k]);
            }
            lemma_emit_has_code(prog, *a, pc);
            assert forall|k: int| 0 <= k < sb implies prog[(pc + sa) + k] == #[trigger] emit_spec(
                *b,
                pc + sa,
            ).1[k] by {
                assert(prog[pc + (sa + k)] == emit_spec(r, pc).1[sa + k]);
                assert(emit_spec(r, pc).1[sa + k] == emit_spec(*b, pc + sa).1[sa + k - sa]);
            }
            lemma_emit_has_code(prog, *b, pc + sa);
        },
        Regexp::Chc(a, b) => {
            let sa = re_size(*a) as int;
            let sb = re_size(*b) as int;
            let ja = pc + 1 + sa;
            let end = ja + 1 + sb;
            lemma_emit_spec_next(*a, pc + 1);
            lemma_emit_spec_next(*b, ja + 1);
            assert(prog[pc + 0] == emit_spec(r, pc).1[0]);
            assert(emit_spec(r, pc).1[0] == Instr::Split((pc + 1) as usize, (ja + 1) as usize));
            assert(prog[pc + (1 + sa)] == emit_spec(r, pc).1[1 + sa]);
            assert(emit_spec(r, pc).1[1 + sa] == Instr::Jmp(end as usize));
            assert forall|k: int| 0 <= k < sa implies prog[(pc + 1) + k] == #[trigger] emit_spec(
                *a,
                pc + 1,
            ).1[k] by {
                assert(prog[pc + (1 + k)] == emit_spec(r, pc).1[1 + k]);
                assert(emit_spec(r, pc).1[1 + k] == emit_spec(*a, pc + 1).1[k]);
            }
            lemma_emit_has_code(prog, *a, pc + 1);
            assert forall|k: int| 0 <= k < sb implies prog[(ja + 1) + k] == #[trigger] emit_spec(
                *b,
                ja + 1,
            ).1[k] by {
                assert(prog[pc + (2 + sa + k)] == emit_spec(r, pc).1[2 + sa + k]);
                assert(emit_spec(r, pc).1[2 + sa + k] == emit_spec(*b, ja + 1).1[k]);
            }
            lemma_emit_has_code(prog, *b, ja + 1);
        },
        Regexp::Rep(a) => {
            let sa = re_size(*a) as int;
            let ja = pc + 1 + sa;
            lemma_emit_spec_next(*a, pc + 1);
            assert(prog[pc + 0] == emit_spec(r, pc).1[0]);
            assert(emit_spec(r, pc).1[0] == Instr::Split((pc + 1) as usize, (ja + 1) as usize));
            assert(prog[pc + (1 + sa)] == emit_spec(r, pc).1[1 + sa]);
            assert(emit_spec(r, pc).1[1 + sa] == Instr::Jmp(pc as usize));
            assert forall|k: int| 0 <= k < sa implies prog[(pc + 1) + k] == #[trigger] emit_spec(
                *a,
                pc + 1,
            ).1[k] by {
                assert(prog[pc + (1 + k)] == emit_spec(r, pc).1[1 + k]);
                assert(emit_spec(r, pc).1[1 + k] == emit_spec(*a, pc + 1).1[k]);
            }
            lemma_emit_has_code(prog, *a, pc + 1);
        },
    }
}

pub open spec fn nat_max(x: nat, y: nat) -> nat {
    if x >= y {
        x
    } else {
        y
    }
}

/// Ranks for the block of `r` placed at `pc`, relative to a bound `e` on the
/// rank of the address just past the block.  Addresses outside the block get
/// arbitrary values; the block's own entries satisfy the descent obligations
/// of [`crate::semantics::rank_ok_at`] whenever `r` is productive
/// ([`lemma_block_ranks_ok`]).
pub open spec fn block_ranks(r: Regexp, pc: int, e: nat) -> spec_fn(int) -> nat
    decreases r,
{
    match r {
        Regexp::Char(_) => |p: int| 0nat,
        Regexp::Cat(a, b) => {
            let pc1 = pc + re_size(*a);
            let rb = block_ranks(*b, pc1, e);
            let ra = block_ranks(*a, pc, rb(pc1));
            |p: int|
                if p < pc1 {
                    ra(p)
                } else {
                    rb(p)
                }
        },
        Regexp::Chc(a, b) => {
            let ja = pc + 1 + re_size(*a);
            let ra = block_ranks(*a, pc + 1, e + 1);
            let rb = block_ranks(*b, ja + 1, e);
            let m = nat_max(ra(pc + 1), rb(ja + 1)) + 1;
            |p: int|
                if p == pc {
                    m
                } else if p < ja {
                    ra(p)
                } else if p == ja {
                    e + 1
                } else {
                    rb(p)
                }
        },
        Regexp::Rep(a) => {
            let ja = pc + 1 + re_size(*a);
            let e0 = block_ranks(*a, pc + 1, 0)(pc + 1);
            let s = nat_max(e0, e) + 1;
            let ra = block_ranks(*a, pc + 1, s + 1);
            |p: int|
                if p == pc {
                    s
                } else if p < ja {
                    ra(p)
                } else {
                    s + 1
                }
        },
    }
}

/// The rank of a non-nullable block's entry does not depend on the bound
/// chosen for the block's exit: every path through the block consumes a
/// symbol before reaching the exit, and consuming breaks the descent chain.
proof fn lemma_entry_indep(r: Regexp, pc: int, e1: nat, e2: nat)
    requires
        !nullable(r),
    ensures
        block_ranks(r, pc, e1)(pc) == block_ranks(r, pc, e2)(pc),
    decreases r,
{
    match r {
        Regexp::Char(_) => {},
        Regexp::Cat(a, b) => {
            let pc1 = pc + re_size(*a);
            lemma_re_size_pos(*a);
            if !nullable(*a) {
                lemma_entry_indep(
                    *a,
                    pc,
                    block_ranks(*b, pc1, e1)(pc1),
                    block_ranks(*b, pc1, e2)(pc1),
                );
            } else {
                lemma_entry_indep(*b, pc1, e1, e2);
            }
        },
        Regexp::Chc(a, b) => {
            let ja = pc + 1 + re_size(*a);
            lemma_entry_indep(*a, pc + 1, e1 + 1, e2 + 1);
            lemma_entry_indep(*b, ja + 1, e1, e2);
        },
        Regexp::Rep(_) => {},
    }
}

/// The central validity argument: if the code of a productive `r` sits at
/// `pc`, and the global rank `g` agrees with the block's construction and is
/// bounded by `e` at the block's exit, then every address of the block meets
/// its descent obligations under `g`.
proof fn lemma_block_ranks_ok(
    prog: Seq<Instr>,
    g: spec_fn(int) -> nat,
    r: Regexp,
    pc: int,
    e: nat,
)
    requires
        productive(r),
        has_code(prog, r, pc),
        prog.len() <= usize::MAX,
        forall|p: int| pc <= p < pc + re_size(r) ==> #[trigger] g(p) == block_ranks(r, pc, e)(p),
        g(pc + re_size(r)) <= e,
    ensures
        forall|p: int| pc <= p < pc + re_size(r) ==> #[trigger] rank_ok_at(prog, g, p),
    decreases r,
{
    match r {
        Regexp::Char(_) => {
            assert(rank_ok_at(prog, g, pc));
        },
        Regexp::Cat(a, b) => {
            let sa = re_size(*a) as int;
            let sb = re_size(*b) as int;
            let pc1 = pc + sa;
            lemma_re_size_pos(*a);
            lemma_re_size_pos(*b);
            let rb = block_ranks(*b, pc1, e);
            let eb = rb(pc1);
            assert forall|p: int| pc <= p < pc1 implies #[trigger] g(p) == block_ranks(
                *a,
                pc,
                eb,
            )(p) by {
                assert(g(p) == block_ranks(r, pc, e)(p));
            }
            assert(g(pc1) == block_ranks(r, pc, e)(pc1));
            assert(g(pc1) == eb);
            lemma_block_ranks_ok(prog, g, *a, pc, eb);
            assert forall|p: int| pc1 <= p < pc1 + sb implies #[trigger] g(p) == block_ranks(
                *b,
                pc1,
                e,
            )(p) by {
                assert(g(p) == block_ranks(r, pc, e)(p));
            }
            lemma_block_ranks_ok(prog, g, *b, pc1, e);
            assert forall|p: int| pc <= p < pc + re_size(r) implies #[trigger] rank_ok_at(
                prog,
                g,
                p,
            ) by {
                if p < pc1 {
                    assert(rank_ok_at(prog, g, p));
                } else {
                    assert(rank_ok_at(prog, g, p));
                }
            }
        },
        Regexp::Chc(a, b) => {
            let sa = re_size(*a) as int;
            let sb = re_size(*b) as int;
            let ja = pc + 1 + sa;
            let end = ja + 1 + sb;
            lemma_re_size_pos(*a);
            lemma_re_size_pos(*b);
            let ra = block_ranks(*a, pc + 1, e + 1);
            let rb = block_ranks(*b, ja + 1, e);
            let m = nat_max(ra(pc + 1), rb(ja + 1)) + 1;
            // the opening split descends to both branch entries
            assert(g(pc) == block_ranks(r, pc, e)(pc));
            assert(g(pc) == m);
            assert(g(pc + 1) == block_ranks(r, pc, e)(pc + 1));
            assert(g(pc + 1) == ra(pc + 1));
            assert(g(ja + 1) == block_ranks(r, pc, e)(ja + 1));
            assert(g(ja + 1) == rb(ja + 1));
            assert(rank_ok_at(prog, g, pc));
            // the jump over the second branch descends to the block's exit
            assert(g(ja) == block_ranks(r, pc, e)(ja));
            assert(g(ja) == e + 1);
            assert(rank_ok_at(prog, g, ja));
            assert forall|p: int| pc + 1 <= p < pc + 1 + sa implies #[trigger] g(p) == block_ranks(
                *a,
                pc + 1,
                (e + 1) as nat,
            )(p) by {
                assert(g(p) == block_ranks(r, pc, e)(p));
            }
            assert(g(pc + 1 + sa) == e + 1);
            lemma_block_ranks_ok(prog, g, *a, pc + 1, (e + 1) as nat);
            assert forall|p: int| ja + 1 <= p < ja + 1 + sb implies #[trigger] g(p) == block_ranks(
                *b,
                ja + 1,
                e,
            )(p) by {
                assert(g(p) == block_ranks(r, pc, e)(p));
            }
            assert(g(ja + 1 + sb) <= e);
            lemma_block_ranks_ok(prog, g, *b, ja + 1, e);
            assert forall|p: int| pc <= p < pc + re_size(r) implies #[trigger] rank_ok_at(
                prog,
                g,
                p,
            ) by {
                if p == pc || p == ja {
                } else if p < ja {
                    assert(rank_ok_at(prog, g, p));
                } else {
                    assert(rank_ok_at(prog, g, p));
                }
            }
        },
        Regexp::Rep(a) => {
            let sa = re_size(*a) as int;
            let ja = pc + 1 + sa;
            lemma_re_size_pos(*a);
            let e0 = block_ranks(*a, pc + 1, 0)(pc + 1);
            let s = nat_max(e0, e) + 1;
            let ra = block_ranks(*a, pc + 1, s + 1);
            // the opening split descends to the body's entry and to the exit
            assert(g(pc) == block_ranks(r, pc, e)(pc));
            assert(g(pc) == s);
            assert(g(pc + 1) == block_ranks(r, pc, e)(pc + 1));
            assert(g(pc + 1) == ra(pc + 1));
            lemma_entry_indep(*a, pc + 1, s + 1, 0);
            assert(g(pc + 1) == e0);
            assert(g(ja + 1) <= e);
            assert(rank_ok_at(prog, g, pc));
            // the back-jump descends from above the body to the split
            assert(g(ja) == block_ranks(r, pc, e)(ja));
            assert(g(ja) == s + 1);
            assert(rank_ok_at(prog, g, ja));
            assert forall|p: int| pc + 1 <= p < pc + 1 + sa implies #[trigger] g(p) == block_ranks(
                *a,
                pc + 1,
                (s + 1) as nat,
            )(p) by {
                assert(g(p) == block_ranks(r, pc, e)(p));
            }
            assert(g(pc + 1 + sa) == s + 1);
            lemma_block_ranks_ok(prog, g, *a, pc + 1, (s + 1) as nat);
            assert forall|p: int| pc <= p < pc + re_size(r) implies #[trigger] rank_ok_at(
                prog,
                g,
                p,
            ) by {
                if p == pc || p == ja {
                } else {
                    assert(rank_ok_at(prog, g, p));
                }
            }
        },
    }
}

/// The code of a productive pattern, followed by the accepting instruction,
/// admits a rank: the backtracking search over it terminates.
pub proof fn lemma_emitted_productive_has_rank(r: Regexp)
    requires
        productive(r),
        re_size(r) + 1 <= usize::MAX,
    ensures
        has_rank(emit_spec(r, 0).1.push(Instr::Match)),
{
    let n = re_size(r) as int;
    let code = emit_spec(r, 0).1;
    let prog = code.push(Instr::Match);
    lemma_emit_spec_next(r, 0);
    assert forall|k: int| 0 <= k < re_size(r) implies prog[0 + k] == #[trigger] emit_spec(
        r,
        0,
    ).1[k] by {
        assert(prog[k] == code[k]);
    }
    lemma_emit_has_code(prog, r, 0);
    let br = block_ranks(r, 0, 0);
    let g = |p: int|
        if 0 <= p < n {
            br(p)
        } else {
            0nat
        };
    lemma_block_ranks_ok(prog, g, r, 0, 0);
    assert forall|p: int| 0 <= p < prog.len() implies #[trigger] rank_ok_at(prog, g, p) by {
        if p < n {
            assert(rank_ok_at(prog, g, p));
        } else {
            assert(prog[p] == Instr::Match);
        }
    }
    assert(ranked(prog, g));
}

/// Compiling a productive pattern yields a program on which both evaluators
/// may run: it is well formed and admits a rank, so their shared precondition
/// holds and they return one and the same verdict,
/// `accepts(compile_spec(s), input)`, on every input.
pub proof fn lemma_compile_has_rank(s: Seq<char>)
    requires
        2 * s.len() + 1 <= usize::MAX,
        compile_spec(s) is Some,
        productive(parse_spec(s, 0)->Some_0.0),
    ensures
        has_rank(compile_spec(s)->Some_0),
{
    let (r, j) = parse_spec(s, 0)->Some_0;
    lemma_parse_spec_bounds(s, 0);
    lemma_parse_spec_size(s, 0);
    lemma_emitted_productive_has_rank(r);
}

} // verus!
