use crate::instruction::Instr;
use crate::semantics::{accepts, accepts_from, has_rank, rank_ok_at, ranked, wf_at, wf_prog};
use vstd::prelude::*;

verus! {

/// One hypothesis of the backtracking search: the instruction at `pc` run
/// against the input from cursor `cc` on.  The native call stack is the
/// backtracking structure; in a `Split` the second target is explored only
/// after the first's entire exploration has failed, by the short-circuit `||`.
fn eval1(
    instrs: &[Instr],
    input: &[char],
    pc: usize,
    cc: usize,
    Ghost(rank): Ghost<spec_fn(int) -> nat>,
) -> (r: bool)
    requires
        wf_prog(instrs@),
        ranked(instrs@, rank),
        pc < instrs@.len(),
        cc <= input@.len(),
    ensures
        r == accepts_from(instrs@, input@, rank, pc as int, cc as int),
    decreases input@.len() - cc, rank(pc as int),
{
    proof {
        assert(wf_at(instrs@, pc as int));
        assert(rank_ok_at(instrs@, rank, pc as int));
    }
    match instrs[pc] {
        Instr::Char(c) => {
            if cc >= input.len() {
                // no more input: this branch fails
                false
            } else if c == input[cc] {
                eval1(instrs, input, pc + 1, cc + 1, Ghost(rank))
            } else {
                // mismatch: this branch fails
                false
            }
        },
        Instr::Match => true,
        Instr::Jmp(i) => eval1(instrs, input, i, cc, Ghost(rank)),
        Instr::Split(i, j) => eval1(instrs, input, i, cc, Ghost(rank)) || eval1(
            instrs,
            input,
            j,
            cc,
            Ghost(rank),
        ),
    }
}

/// Run the program against the input by native recursion, starting, as
/// always, at instruction 0 with nothing of the input consumed.
///
/// The program must be well formed and admit a rank (every compiled
/// productive pattern does: see [`crate::ranks::lemma_compile_has_rank`]),
/// which bounds the backtracking and makes the search total.
pub fn eval(instrs: &[Instr], input: &[char]) -> (r: bool)
    requires
        wf_prog(instrs@),
        has_rank(instrs@),
    ensures
        r == accepts(instrs@, input@),
{
    let ghost rank = choose|rank: spec_fn(int) -> nat| ranked(instrs@, rank);
    eval1(instrs, input, 0, 0, Ghost(rank))
}

} // verus!
