use crate::instruction::Instr;
use crate::semantics::{accepts, accepts_from, has_rank, rank_ok_at, ranked, wf_at, wf_prog};
use vstd::prelude::*;

verus! {

/// The state of a run can be unambiguously specified by a current instruction
/// and a current position in the input: one pending hypothesis to explore.
struct EvalState {
    pc: usize,
    cc: usize,
}

/// Does some hypothesis on the stack lead to `Match`?  The order of the
/// disjuncts does not matter for the boolean outcome, so the stack is folded
/// from either end; the evaluator maintains that this disjunction equals the
/// overall verdict.
spec fn any_accepts(
    prog: Seq<Instr>,
    input: Seq<char>,
    rank: spec_fn(int) -> nat,
    states: Seq<EvalState>,
) -> bool
    decreases states.len(),
{
    if states.len() == 0 {
        false
    } else {
        any_accepts(prog, input, rank, states.drop_last()) || accepts_from(
            prog,
            input,
            rank,
            states.last().pc as int,
            states.last().cc as int,
        )
    }
}

/// How many states the search starting from `(pc, cc)` pops in the worst
/// case: the full backtracking tree, with no short-circuiting.  Each popped
/// state puts strictly smaller trees back, so the total over the stack shrinks
/// on every iteration of the evaluator's loop.
spec fn search_size(
    prog: Seq<Instr>,
    input: Seq<char>,
    rank: spec_fn(int) -> nat,
    pc: int,
    cc: int,
) -> nat
    decreases input.len() - cc, rank(pc),
        when wf_prog(prog) && ranked(prog, rank) && 0 <= pc < prog.len() && 0 <= cc <= input.len()
{
    proof {
        assert(wf_at(prog, pc));
        assert(rank_ok_at(prog, rank, pc));
    }
    match prog[pc] {
        Instr::Char(c) => if cc < input.len() && input[cc] == c {
            1 + search_size(prog, input, rank, pc + 1, cc + 1)
        } else {
            1
        },
        Instr::Match => 1,
        Instr::Jmp(t) => 1 + search_size(prog, input, rank, t as int, cc),
        Instr::Split(t1, t2) => 1 + search_size(prog, input, rank, t1 as int, cc) + search_size(
            prog,
            input,
            rank,
            t2 as int,
            cc,
        ),
    }
}

/// The work left on the whole stack: the sum of its states' search trees.
spec fn stack_size(
    prog: Seq<Instr>,
    input: Seq<char>,
    rank: spec_fn(int) -> nat,
    states: Seq<EvalState>,
) -> nat
    decreases states.len(),
{
    if states.len() == 0 {
        0
    } else {
        stack_size(prog, input, rank, states.drop_last()) + search_size(
            prog,
            input,
            rank,
            states.last().pc as int,
            states.last().cc as int,
        )
    }
}

/// Every state on the stack points into the program and the input.
spec fn states_ok(prog: Seq<Instr>, input: Seq<char>, states: Seq<EvalState>) -> bool {
    forall|k: int|
        0 <= k < states.len() ==> (#[trigger] states[k]).pc < prog.len() && states[k].cc
            <= input.len()
}

proof fn lemma_any_accepts_push(
    prog: Seq<Instr>,
    input: Seq<char>,
    rank: spec_fn(int) -> nat,
    states: Seq<EvalState>,
    st: EvalState,
)
    ensures
        any_accepts(prog, input, rank, states.push(st)) == (any_accepts(prog, input, rank, states)
            || accepts_from(prog, input, rank, st.pc as int, st.cc as int)),
        stack_size(prog, input, rank, states.push(st)) == stack_size(prog, input, rank, states)
            + search_size(prog, input, rank, st.pc as int, st.cc as int),
{
    assert(states.push(st).drop_last() =~= states);
    assert(states.push(st).last() == st);
}

/// Run the program against the input with a manual, explicitly managed stack
/// of pending hypotheses, starting, as always, at instruction 0 with nothing
/// of the input consumed.  Pushing a `Split`'s second target before its first
/// preserves, via last-in-first-out order, the same left-to-right exploration
/// order as the recursive evaluator.
///
/// The precondition and the postcondition are those of
/// [`crate::recursive::eval`]: on every program that admits a rank the two
/// evaluators return the same verdict.
pub fn eval(instrs: &[Instr], input: &[char]) -> (r: bool)
    requires
        wf_prog(instrs@),
        has_rank(instrs@),
    ensures
        r == accepts(instrs@, input@),
{
    let ghost rank = choose|rank: spec_fn(int) -> nat| ranked(instrs@, rank);
    let mut stack: Vec<EvalState> = Vec::new();
    stack.push(EvalState { pc: 0, cc: 0 });
    proof {
        assert(stack@.drop_last() =~= Seq::<EvalState>::empty());
        assert(stack@.last() == EvalState { pc: 0, cc: 0 });
        assert(any_accepts(instrs@, input@, rank, stack@.drop_last()) == false);
        assert(any_accepts(instrs@, input@, rank, stack@) == accepts_from(
            instrs@,
            input@,
            rank,
            0,
            0,
        ));
        assert(accepts(instrs@, input@) == accepts_from(instrs@, input@, rank, 0, 0));
    }
    // Every time a hypothesis turns out impossible, it leaves the stack. A
    // completed match short-circuits out of the loop; an emptied stack means
    // every possible branch has failed.
    while stack.len() > 0
        invariant
            wf_prog(instrs@),
            ranked(instrs@, rank),
            states_ok(instrs@, input@, stack@),
            accepts(instrs@, input@) == any_accepts(instrs@, input@, rank, stack@),
        decreases stack_size(instrs@, input@, rank, stack@),
    {
        let ghost prev = stack@;
        let st = stack.pop().unwrap();
        proof {
            assert(prev[prev.len() - 1] == st);
            assert(stack@ =~= prev.drop_last());
            assert(wf_at(instrs@, st.pc as int));
            assert(rank_ok_at(instrs@, rank, st.pc as int));
        }
        match instrs[st.pc] {
            Instr::Char(c) => {
                if st.cc >= input.len() {
                    // past the end of the input: this hypothesis is dead
                } else if c == input[st.cc] {
                    proof {
                        lemma_any_accepts_push(
                            instrs@,
                            input@,
                            rank,
                            stack@,
                            EvalState { pc: (st.pc + 1) as usize, cc: (st.cc + 1) as usize },
                        );
                    }
                    stack.push(EvalState { pc: st.pc + 1, cc: st.cc + 1 });
                }
                // on a mismatch the hypothesis is dead: nothing to push
            },
            Instr::Match => {
                return true;
            },
            Instr::Jmp(i) => {
                proof {
                    lemma_any_accepts_push(
                        instrs@,
                        input@,
                        rank,
                        stack@,
                        EvalState { pc: i, cc: st.cc },
                    );
                }
                stack.push(EvalState { pc: i, cc: st.cc });
            },
            Instr::Split(i, j) => {
                proof {
                    lemma_any_accepts_push(
                        instrs@,
                        input@,
                        rank,
                        stack@,
                        EvalState { pc: j, cc: st.cc },
                    );
                    lemma_any_accepts_push(
                        instrs@,
                        input@,
                        rank,
                        stack@.push(EvalState { pc: j, cc: st.cc }),
                        EvalState { pc: i, cc: st.cc },
                    );
                }
                stack.push(EvalState { pc: j, cc: st.cc });
                stack.push(EvalState { pc: i, cc: st.cc });
            },
        }
    }
    false
}

} // verus!
