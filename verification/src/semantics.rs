use crate::instruction::Instr;
use vstd::prelude::*;

verus! {

/// The instruction at address `p` keeps a running evaluator inside the
/// program: control transfers land on valid addresses, and a `Char` is
/// followed by a further instruction.
pub open spec fn wf_at(prog: Seq<Instr>, p: int) -> bool {
    match prog[p] {
        Instr::Char(_) => p + 1 < prog.len(),
        Instr::Match => true,
        Instr::Jmp(t) => t < prog.len(),
        Instr::Split(t1, t2) => t1 < prog.len() && t2 < prog.len(),
    }
}

/// A well-formed program: non-empty, and an evaluator started at address 0
/// can never step outside the program.
pub open spec fn wf_prog(prog: Seq<Instr>) -> bool {
    &&& prog.len() > 0
    &&& forall|p: int| 0 <= p < prog.len() ==> #[trigger] wf_at(prog, p)
}

/// At address `p`, every control transfer that does not consume input
/// strictly lowers `rank`.
pub open spec fn rank_ok_at(prog: Seq<Instr>, rank: spec_fn(int) -> nat, p: int) -> bool {
    match prog[p] {
        Instr::Char(_) => true,
        Instr::Match => true,
        Instr::Jmp(t) => rank(t as int) < rank(p),
        Instr::Split(t1, t2) => rank(t1 as int) < rank(p) && rank(t2 as int) < rank(p),
    }
}

/// `rank` witnesses that every cycle of the program's control-flow graph
/// passes through a `Char`: only consuming a symbol may raise the rank again.
pub open spec fn ranked(prog: Seq<Instr>, rank: spec_fn(int) -> nat) -> bool {
    forall|p: int| 0 <= p < prog.len() ==> #[trigger] rank_ok_at(prog, rank, p)
}

/// The program admits some rank, so a backtracking search over it terminates:
/// between any two visits to the same address the cursor must have advanced.
pub open spec fn has_rank(prog: Seq<Instr>) -> bool {
    exists|rank: spec_fn(int) -> nat| ranked(prog, rank)
}

/// The backtracking search: does the hypothesis "control at `pc`, cursor at
/// `cc`" lead to `Match`?  This is the single semantics both evaluators are
/// proved against.  In a `Split`, the first target is tried first and the
/// second only if the first's entire exploration fails; only the boolean
/// outcome is visible here, but the evaluators preserve that order.
pub open spec fn accepts_from(
    prog: Seq<Instr>,
    input: Seq<char>,
    rank: spec_fn(int) -> nat,
    pc: int,
    cc: int,
) -> bool
    decreases input.len() - cc, rank(pc),
        when wf_prog(prog) && ranked(prog, rank) && 0 <= pc < prog.len() && 0 <= cc <= input.len()
{
    proof {
        assert(wf_at(prog, pc));
        assert(rank_ok_at(prog, rank, pc));
    }
    match prog[pc] {
        Instr::Char(c) => cc < input.len() && input[cc] == c && accepts_from(
            prog,
            input,
            rank,
            pc + 1,
            cc + 1,
        ),
        Instr::Match => true,
        Instr::Jmp(t) => accepts_from(prog, input, rank, t as int, cc),
        Instr::Split(t1, t2) => accepts_from(prog, input, rank, t1 as int, cc) || accepts_from(
            prog,
            input,
            rank,
            t2 as int,
            cc,
        ),
    }
}

/// Does the program accept the input?  Entry is always address 0, cursor 0.
pub open spec fn accepts(prog: Seq<Instr>, input: Seq<char>) -> bool {
    accepts_from(prog, input, choose|rank: spec_fn(int) -> nat| ranked(prog, rank), 0, 0)
}

/// The verdict of the search does not depend on which rank witnesses its
/// termination: any two ranks of the program give the same `accepts_from`.
pub proof fn lemma_accepts_from_rank_irrelevant(
    prog: Seq<Instr>,
    input: Seq<char>,
    rank1: spec_fn(int) -> nat,
    rank2: spec_fn(int) -> nat,
    pc: int,
    cc: int,
)
    requires
        wf_prog(prog),
        ranked(prog, rank1),
        ranked(prog, rank2),
        0 <= pc < prog.len(),
        0 <= cc <= input.len(),
    ensures
        accepts_from(prog, input, rank1, pc, cc) == accepts_from(prog, input, rank2, pc, cc),
    decreases input.len() - cc, rank1(pc),
{
    assert(wf_at(prog, pc));
    assert(rank_ok_at(prog, rank1, pc));
    assert(rank_ok_at(prog, rank2, pc));
    match prog[pc] {
        Instr::Char(c) => {
            if cc < input.len() && input[cc] == c {
                lemma_accepts_from_rank_irrelevant(prog, input, rank1, rank2, pc + 1, cc + 1);
            }
        },
        Instr::Match => {},
        Instr::Jmp(t) => {
            lemma_accepts_from_rank_irrelevant(prog, input, rank1, rank2, t as int, cc);
        },
        Instr::Split(t1, t2) => {
            lemma_accepts_from_rank_irrelevant(prog, input, rank1, rank2, t1 as int, cc);
            lemma_accepts_from_rank_irrelevant(prog, input, rank1, rank2, t2 as int, cc);
        },
    }
}

/// So `accepts` can be read through any rank at hand, not only the chosen one.
pub proof fn lemma_accepts_via_rank(
    prog: Seq<Instr>,
    input: Seq<char>,
    rank: spec_fn(int) -> nat,
)
    requires
        wf_prog(prog),
        ranked(prog, rank),
    ensures
        accepts(prog, input) == accepts_from(prog, input, rank, 0, 0),
{
    let chosen = choose|rank: spec_fn(int) -> nat| ranked(prog, rank);
    assert(ranked(prog, chosen));
    lemma_accepts_from_rank_irrelevant(prog, input, chosen, rank, 0, 0);
}

} // verus!
