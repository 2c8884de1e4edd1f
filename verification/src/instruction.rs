use vstd::prelude::*;

verus! {

/// A single instruction as used in the VM-based matcher.
///
/// Instructions are stored in an ordered sequence; an instruction's index in
/// that sequence is its address, and `Jmp`/`Split` targets are absolute
/// indices into the same sequence.
#[derive(Clone, Copy, Debug, PartialEq, Eq, Structural)]
pub enum Instr {
    /// Consume one input symbol if it equals the given character; otherwise
    /// this branch of the search fails.
    Char(char),
    /// The whole match succeeds unconditionally.
    Match,
    /// Unconditional transfer of control to the given instruction address.
    Jmp(usize),
    /// Non-deterministic choice: try the first target, and if that entire
    /// branch of the search fails, try the second.
    Split(usize, usize),
}

} // verus!
