use crate::instruction::Instr;
use vstd::prelude::*;

verus! {

/// A regular expression parse tree.
///
/// Each composite node exclusively owns its children: the tree has no sharing
/// and no cycles.  A tree is built once per call of [`compile`], lowered to
/// instructions, and then discarded.
#[derive(Debug)]
pub enum Regexp {
    /// Match exactly one literal character.
    Char(char),
    /// Concatenation: match the first part, then the second.
    Cat(Box<Regexp>, Box<Regexp>),
    /// Alternation: match the first part or the second.
    Chc(Box<Regexp>, Box<Regexp>),
    /// Zero-or-more repetition.
    Rep(Box<Regexp>),
}

/// The pattern was exhausted before an operator's operands were supplied.
#[derive(Clone, Copy, Debug, PartialEq, Eq, Structural)]
pub struct ParseError;

/// How many instructions the compiler emits for this tree.
pub open spec fn re_size(r: Regexp) -> nat
    decreases r,
{
    match r {
        Regexp::Char(_) => 1,
        Regexp::Cat(a, b) => re_size(*a) + re_size(*b),
        Regexp::Chc(a, b) => re_size(*a) + re_size(*b) + 2,
        Regexp::Rep(a) => re_size(*a) + 2,
    }
}

/// Can this pattern match the empty word?
pub open spec fn nullable(r: Regexp) -> bool
    decreases r,
{
    match r {
        Regexp::Char(_) => false,
        Regexp::Cat(a, b) => nullable(*a) && nullable(*b),
        Regexp::Chc(a, b) => nullable(*a) || nullable(*b),
        Regexp::Rep(_) => true,
    }
}

/// Every repetition body consumes at least one symbol per pass.  On such
/// patterns the compiled loops always advance the cursor before re-entry, so
/// the backtracking search terminates (see [`crate::semantics::has_rank`]).
pub open spec fn productive(r: Regexp) -> bool
    decreases r,
{
    match r {
        Regexp::Char(_) => true,
        Regexp::Cat(a, b) => productive(*a) && productive(*b),
        Regexp::Chc(a, b) => productive(*a) && productive(*b),
        Regexp::Rep(a) => productive(*a) && !nullable(*a),
    }
}

/// The prefix grammar, one node per step: `.` and `|` consume their character
/// and then exactly two subexpressions, `*` consumes its character and one
/// subexpression, and any other character is a literal.  Returns the parsed
/// node together with the position just past it, or `None` when the pattern
/// ends before an operator's operands are supplied.
pub open spec fn parse_spec(s: Seq<char>, i: int) -> Option<(Regexp, int)>
    decreases s.len() - i,
{
    if i < 0 || i >= s.len() {
        None
    } else if s[i] == '.' || s[i] == '|' {
        match parse_spec(s, i + 1) {
            None => None,
            Some((r1, j1)) => if j1 <= i || j1 > s.len() {
                // A parse never stops before its starting position nor past
                // the end; this branch is unreachable and only bounds the
                // recursion.
                None
            } else {
                match parse_spec(s, j1) {
                    None => None,
                    Some((r2, j2)) => if s[i] == '.' {
                        Some((Regexp::Cat(Box::new(r1), Box::new(r2)), j2))
                    } else {
                        Some((Regexp::Chc(Box::new(r1), Box::new(r2)), j2))
                    },
                }
            },
        }
    } else if s[i] == '*' {
        match parse_spec(s, i + 1) {
            None => None,
            Some((r1, j1)) => Some((Regexp::Rep(Box::new(r1)), j1)),
        }
    } else {
        Some((Regexp::Char(s[i]), i + 1))
    }
}

/// A successful parse consumes at least one character and stops within the
/// pattern.
pub proof fn lemma_parse_spec_bounds(s: Seq<char>, i: int)
    requires
        parse_spec(s, i) is Some,
    ensures
        i < parse_spec(s, i)->Some_0.1 <= s.len(),
    decreases s.len() - i,
{
    if i < 0 || i >= s.len() {
    } else if s[i] == '.' || s[i] == '|' {
        lemma_parse_spec_bounds(s, i + 1);
        let (r1, j1) = parse_spec(s, i + 1)->Some_0;
        lemma_parse_spec_bounds(s, j1);
    } else if s[i] == '*' {
        lemma_parse_spec_bounds(s, i + 1);
    }
}

/// The emitted code is at most twice as long as the pattern text consumed.
pub proof fn lemma_parse_spec_size(s: Seq<char>, i: int)
    requires
        parse_spec(s, i) is Some,
    ensures
        re_size(parse_spec(s, i)->Some_0.0) <= 2 * (parse_spec(s, i)->Some_0.1 - i),
    decreases s.len() - i,
{
    if i < 0 || i >= s.len() {
    } else if s[i] == '.' || s[i] == '|' {
        lemma_parse_spec_bounds(s, i + 1);
        lemma_parse_spec_size(s, i + 1);
        let (r1, j1) = parse_spec(s, i + 1)->Some_0;
        lemma_parse_spec_bounds(s, j1);
        lemma_parse_spec_size(s, j1);
    } else if s[i] == '*' {
        lemma_parse_spec_bounds(s, i + 1);
        lemma_parse_spec_size(s, i + 1);
    }
}

fn chr(c: char) -> (r: Box<Regexp>)
    ensures
        *r == Regexp::Char(c),
{
    Box::new(Regexp::Char(c))
}

fn cat(l: Box<Regexp>, r: Box<Regexp>) -> (out: Box<Regexp>)
    ensures
        *out == Regexp::Cat(l, r),
{
    Box::new(Regexp::Cat(l, r))
}

fn chc(l: Box<Regexp>, r: Box<Regexp>) -> (out: Box<Regexp>)
    ensures
        *out == Regexp::Chc(l, r),
{
    Box::new(Regexp::Chc(l, r))
}

fn rep(x: Box<Regexp>) -> (out: Box<Regexp>)
    ensures
        *out == Regexp::Rep(x),
{
    Box::new(Regexp::Rep(x))
}

/// Consume one node of the prefix pattern starting at position `i`, returning
/// the node and the position just past it.  The pattern running out before an
/// operator's operands are supplied is a reported error, never a silent
/// out-of-bounds read.
fn parse(s: &Vec<char>, i: usize) -> (r: Result<(Box<Regexp>, usize), ParseError>)
    ensures
        match r {
            Ok((re, j)) => parse_spec(s@, i as int) == Some((*re, j as int)) && i < j <= s@.len(),
            Err(_) => parse_spec(s@, i as int) is None,
        },
    decreases s@.len() - i,
{
    if i >= s.len() {
        return Err(ParseError);
    }
    let c = s[i];
    if c == '.' || c == '|' {
        let (r1, j1) = match parse(s, i + 1) {
            Ok(x) => x,
            Err(e) => {
                return Err(e);
            },
        };
        let (r2, j2) = match parse(s, j1) {
            Ok(x) => x,
            Err(e) => {
                return Err(e);
            },
        };
        if c == '.' {
            Ok((cat(r1, r2), j2))
        } else {
            Ok((chc(r1, r2), j2))
        }
    } else if c == '*' {
        match parse(s, i + 1) {
            Ok((r1, j1)) => Ok((rep(r1), j1)),
            Err(e) => Err(e),
        }
    } else {
        Ok((chr(c), i + 1))
    }
}

/// Append a copy of every element of `source` to `target`.
fn push_all(target: &mut Vec<Instr>, source: &Vec<Instr>)
    ensures
        final(target)@ == old(target)@ + source@,
{
    let mut k: usize = 0;
    while k < source.len()
        invariant
            k <= source@.len(),
            target@ == old(target)@ + source@.subrange(0, k as int),
        decreases source@.len() - k,
    {
        target.push(source[k]);
        k = k + 1;
        proof {
            assert(old(target)@ + source@.subrange(0, k - 1 as int) + seq![source@[k - 1]]
                =~= old(target)@ + source@.subrange(0, k as int));
        }
    }
    proof {
        assert(source@.subrange(0, source@.len() as int) =~= source@);
    }
}

/// Lowering a tree to instructions, to be placed at address `pc`: the address
/// just past the block, and the block itself, with every `Jmp`/`Split` target
/// already absolute.
pub open spec fn emit_spec(r: Regexp, pc: int) -> (int, Seq<Instr>)
    decreases r,
{
    match r {
        Regexp::Char(c) => (pc + 1, seq![Instr::Char(c)]),
        Regexp::Cat(a, b) => {
            let (pc1, v1) = emit_spec(*a, pc);
            let (pc2, v2) = emit_spec(*b, pc1);
            (pc2, v1 + v2)
        },
        Regexp::Chc(a, b) => {
            let (pc_a, v1) = emit_spec(*a, pc + 1);
            let (pc_b, v2) = emit_spec(*b, pc_a + 1);
            (
                pc_b,
                seq![Instr::Split((pc + 1) as usize, (pc_a + 1) as usize)] + v1
                    + seq![Instr::Jmp(pc_b as usize)] + v2,
            )
        },
        Regexp::Rep(a) => {
            let (pc_a, v1) = emit_spec(*a, pc + 1);
            (
                pc_a + 1,
                seq![Instr::Split((pc + 1) as usize, (pc_a + 1) as usize)] + v1
                    + seq![Instr::Jmp(pc as usize)],
            )
        },
    }
}

/// The address past a block is its start plus the block's length.
pub proof fn lemma_emit_spec_next(r: Regexp, pc: int)
    ensures
        emit_spec(r, pc).0 == pc + re_size(r),
        emit_spec(r, pc).1.len() == re_size(r),
    decreases r,
{
    match r {
        Regexp::Char(_) => {},
        Regexp::Cat(a, b) => {
            lemma_emit_spec_next(*a, pc);
            lemma_emit_spec_next(*b, pc + re_size(*a));
        },
        Regexp::Chc(a, b) => {
            lemma_emit_spec_next(*a, pc + 1);
            lemma_emit_spec_next(*b, pc + 1 + re_size(*a) + 1);
        },
        Regexp::Rep(a) => {
            lemma_emit_spec_next(*a, pc + 1);
        },
    }
}

/// Compile the tree rooted at `regexp` to instructions that will live at
/// address `pc`, returning the address just past the block together with the
/// block, so that the caller can place subsequent code without a separate
/// address-resolution pass.
fn emit(regexp: &Regexp, pc: usize) -> (r: (usize, Vec<Instr>))
    requires
        pc + re_size(*regexp) <= usize::MAX,
    ensures
        r.0 == pc + re_size(*regexp),
        r.1@ == emit_spec(*regexp, pc as int).1,
    decreases *regexp,
{
    proof {
        lemma_emit_spec_next(*regexp, pc as int);
    }
    match regexp {
        Regexp::Char(c) => {
            (pc + 1, vec![Instr::Char(*c)])
        },
        Regexp::Cat(first, second) => {
            proof {
                lemma_emit_spec_next(**first, pc as int);
                lemma_emit_spec_next(**second, pc + re_size(**first));
            }
            let (first_pc, mut v1) = emit(first, pc);
            let (second_pc, v2) = emit(second, first_pc);
            push_all(&mut v1, &v2);
            (second_pc, v1)
        },
        Regexp::Chc(first, second) => {
            proof {
                lemma_emit_spec_next(**first, pc + 1 as int);
                lemma_emit_spec_next(**second, pc + 1 + re_size(**first) + 1);
            }
            let (first_pc, v1) = emit(first, pc + 1);
            let (second_pc, v2) = emit(second, first_pc + 1);
            let mut split_instr = vec![Instr::Split(pc + 1, first_pc + 1)];
            let jmp_instr = vec![Instr::Jmp(second_pc)];
            push_all(&mut split_instr, &v1);
            push_all(&mut split_instr, &jmp_instr);
            push_all(&mut split_instr, &v2);
            proof {
                assert(split_instr@ =~= emit_spec(*regexp, pc as int).1);
            }
            (second_pc, split_instr)
        },
        Regexp::Rep(expr) => {
            proof {
                lemma_emit_spec_next(**expr, pc + 1 as int);
            }
            let (expr_pc, v1) = emit(expr, pc + 1);
            let mut spl = vec![Instr::Split(pc + 1, expr_pc + 1)];
            let jmp = vec![Instr::Jmp(pc)];
            push_all(&mut spl, &v1);
            push_all(&mut spl, &jmp);
            proof {
                assert(spl@ =~= emit_spec(*regexp, pc as int).1);
            }
            (expr_pc + 1, spl)
        },
    }
}

/// An instruction of a block placed at addresses `lo..hi` transfers control
/// only into `lo..=hi` (where `hi` is the address of whatever follows the
/// block), and is never the accepting instruction: that one is appended once,
/// by [`compile`], after emission completes.
pub open spec fn block_instr_ok(ins: Instr, lo: int, hi: int) -> bool {
    match ins {
        Instr::Char(_) => true,
        Instr::Match => false,
        Instr::Jmp(t) => lo <= t <= hi,
        Instr::Split(t1, t2) => lo <= t1 <= hi && lo <= t2 <= hi,
    }
}

/// Every `Jmp`/`Split` target of an emitted block stays between the block's
/// start and the address just past it, and an emitted block never contains
/// the accepting instruction.
pub proof fn lemma_emit_targets(r: Regexp, pc: int)
    requires
        0 <= pc,
        pc + re_size(r) <= usize::MAX,
    ensures
        forall|k: int|
            0 <= k < re_size(r) ==> block_instr_ok(
                #[trigger] emit_spec(r, pc).1[k],
                pc,
                pc + re_size(r),
            ),
    decreases r,
{
    lemma_emit_spec_next(r, pc);
    match r {
        Regexp::Char(_) => {},
        Regexp::Cat(a, b) => {
            let sa = re_size(*a) as int;
            let sb = re_size(*b) as int;
            lemma_emit_spec_next(*a, pc);
            lemma_emit_spec_next(*b, pc + sa);
            lemma_emit_targets(*a, pc);
            lemma_emit_targets(*b, pc + sa);
            assert forall|k: int| 0 <= k < re_size(r) implies block_instr_ok(
                #[trigger] emit_spec(r, pc).1[k],
                pc,
                pc + re_size(r),
            ) by {
                if k < sa {
                    assert(emit_spec(r, pc).1[k] == emit_spec(*a, pc).1[k]);
                } else {
                    assert(emit_spec(r, pc).1[k] == emit_spec(*b, pc + sa).1[k - sa]);
                }
            }
        },
        Regexp::Chc(a, b) => {
            let sa = re_size(*a) as int;
            let sb = re_size(*b) as int;
            let ja = pc + 1 + sa;
            lemma_emit_spec_next(*a, pc + 1);
            lemma_emit_spec_next(*b, ja + 1);
            lemma_emit_targets(*a, pc + 1);
            lemma_emit_targets(*b, ja + 1);
            assert forall|k: int| 0 <= k < re_size(r) implies block_instr_ok(
                #[trigger] emit_spec(r, pc).1[k],
                pc,
                pc + re_size(r),
            ) by {
                if k == 0 {
                    assert(emit_spec(r, pc).1[k] == Instr::Split(
                        (pc + 1) as usize,
                        (ja + 1) as usize,
                    ));
                } else if k < 1 + sa {
                    assert(emit_spec(r, pc).1[k] == emit_spec(*a, pc + 1).1[k - 1]);
                } else if k == 1 + sa {
                    assert(emit_spec(r, pc).1[k] == Instr::Jmp((pc + re_size(r)) as usize));
                } else {
                    assert(emit_spec(r, pc).1[k] == emit_spec(*b, ja + 1).1[k - (2 + sa)]);
                }
            }
        },
        Regexp::Rep(a) => {
            let sa = re_size(*a) as int;
            let ja = pc + 1 + sa;
            lemma_emit_spec_next(*a, pc + 1);
            lemma_emit_targets(*a, pc + 1);
            assert forall|k: int| 0 <= k < re_size(r) implies block_instr_ok(
                #[trigger] emit_spec(r, pc).1[k],
                pc,
                pc + re_size(r),
            ) by {
                if k == 0 {
                    assert(emit_spec(r, pc).1[k] == Instr::Split(
                        (pc + 1) as usize,
                        (ja + 1) as usize,
                    ));
                } else if k < 1 + sa {
                    assert(emit_spec(r, pc).1[k] == emit_spec(*a, pc + 1).1[k - 1]);
                } else {
                    assert(emit_spec(r, pc).1[k] == Instr::Jmp(pc as usize));
                }
            }
        },
    }
}

/// What [`compile`] produces for a pattern text: the code for the first
/// parsed node (trailing pattern text is ignored, as in a single parse call)
/// followed by the one accepting instruction, or nothing when the pattern is
/// malformed.
pub open spec fn compile_spec(s: Seq<char>) -> Option<Seq<Instr>> {
    match parse_spec(s, 0) {
        None => None,
        Some((r, _)) => Some(emit_spec(r, 0).1.push(Instr::Match)),
    }
}

/// Collect the characters of a string, so that positions index symbols
/// rather than bytes.
pub fn as_chars(s: &str) -> (r: Vec<char>)
    ensures
        r@ == s@,
{
    let mut out: Vec<char> = Vec::new();
    for c in it: s.chars()
        invariant
            out@ == it.seq().subrange(0, it.index() as int),
    {
        out.push(c);
        proof {
            assert(out@ =~= it.seq().subrange(0, it.index() + 1 as int));
        }
    }
    proof {
        assert(out@ =~= s@);
    }
    out
}

/// Address well-formedness of compiled programs: every `Jmp`/`Split` target
/// of a compiled program is a valid index into that same program, and its
/// final instruction is its only accepting one.
pub proof fn lemma_compile_spec_wf(s: Seq<char>)
    requires
        2 * s.len() + 1 <= usize::MAX,
        compile_spec(s) is Some,
    ensures
        crate::semantics::wf_prog(compile_spec(s)->Some_0),
        compile_spec(s)->Some_0.last() == Instr::Match,
        forall|p: int|
            0 <= p < compile_spec(s)->Some_0.len() - 1 ==> compile_spec(s)->Some_0[p]
                != Instr::Match,
{
    let (re, _) = parse_spec(s, 0)->Some_0;
    let code = compile_spec(s)->Some_0;
    let n = re_size(re) as int;
    lemma_parse_spec_bounds(s, 0);
    lemma_parse_spec_size(s, 0);
    lemma_emit_spec_next(re, 0);
    lemma_emit_targets(re, 0);
    assert forall|p: int| 0 <= p < code.len() implies #[trigger] crate::semantics::wf_at(
        code,
        p,
    ) by {
        if p < n {
            assert(block_instr_ok(emit_spec(re, 0).1[p], 0, n));
            assert(code[p] == emit_spec(re, 0).1[p]);
        }
    }
    assert forall|p: int| 0 <= p < code.len() - 1 implies code[p] != Instr::Match by {
        assert(block_instr_ok(emit_spec(re, 0).1[p], 0, n));
        assert(code[p] == emit_spec(re, 0).1[p]);
    }
}

/// Compile a pattern text: parse it, lower the tree starting at address 0,
/// and append the accepting instruction.  Fails exactly on malformed
/// patterns, those that end before an operator's operands are supplied.  The
/// result is a well-formed program whose final instruction is its only
/// accepting one.
pub fn compile(s: &str) -> (r: Result<Vec<Instr>, ParseError>)
    requires
        2 * s@.len() + 1 <= usize::MAX,
    ensures
        match r {
            Ok(code) => {
                &&& compile_spec(s@) == Some(code@)
                &&& crate::semantics::wf_prog(code@)
                &&& code@[code@.len() - 1] == Instr::Match
                &&& forall|p: int| 0 <= p < code@.len() - 1 ==> code@[p] != Instr::Match
            },
            Err(_) => compile_spec(s@) is None,
        },
{
    let cs = as_chars(s);
    let (re, _) = match parse(&cs, 0) {
        Ok(x) => x,
        Err(e) => {
            return Err(e);
        },
    };
    proof {
        lemma_parse_spec_bounds(s@, 0);
        lemma_parse_spec_size(s@, 0);
    }
    let (_, mut ins) = emit(&re, 0);
    ins.push(Instr::Match);
    proof {
        lemma_compile_spec_wf(s@);
    }
    Ok(ins)
}

} // verus!
