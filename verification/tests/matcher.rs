use regexp::compile::{as_chars, compile};
use regexp::recursive;
use regexp::stack;
use regexp::Instr;

fn compiled(pattern: &str) -> Vec<Instr> {
    compile(pattern).expect("pattern should compile")
}

fn both(instrs: &[Instr], input: &str) -> bool {
    let chars = as_chars(input);
    let r = recursive::eval(instrs, &chars);
    let s = stack::eval(instrs, &chars);
    assert_eq!(r, s, "evaluators disagree on {:?}", input);
    r
}

#[test]
fn as_chars_collects_characters() {
    assert_eq!(as_chars("abc"), vec!['a', 'b', 'c']);
    assert_eq!(as_chars(""), Vec::<char>::new());
}

#[test]
fn literal_compiles_to_char_and_match() {
    assert_eq!(compiled("a"), vec![Instr::Char('a'), Instr::Match]);
}

#[test]
fn literal_matching() {
    let p = compiled("a");
    assert!(both(&p, "a"));
    assert!(!both(&p, ""));
    assert!(!both(&p, "b"));
}

#[test]
fn concatenation() {
    let p = compiled(".ab");
    assert_eq!(
        p,
        vec![Instr::Char('a'), Instr::Char('b'), Instr::Match]
    );
    assert!(both(&p, "ab"));
    assert!(!both(&p, "a"));
    assert!(!both(&p, "b"));
    assert!(!both(&p, "ba"));
}

#[test]
fn alternation() {
    let p = compiled("|ab");
    assert_eq!(
        p,
        vec![
            Instr::Split(1, 3),
            Instr::Char('a'),
            Instr::Jmp(4),
            Instr::Char('b'),
            Instr::Match,
        ]
    );
    assert!(both(&p, "a"));
    assert!(both(&p, "b"));
    assert!(!both(&p, "c"));
    assert!(!both(&p, ""));
    // Matching is unanchored: reaching Match with input left over still
    // succeeds, so the first branch accepts the prefix "a" of "ab".
    assert!(both(&p, "ab"));
}

#[test]
fn repetition_and_composition() {
    // ..a*bc is Cat(Cat(Char(a), Rep(Char(b))), Char(c)): one a, any number
    // of b, then c -- each prefix operator takes the subexpressions that
    // follow it, so * applies to b.
    let p = compiled("..a*bc");
    assert_eq!(
        p,
        vec![
            Instr::Char('a'),
            Instr::Split(2, 4),
            Instr::Char('b'),
            Instr::Jmp(1),
            Instr::Char('c'),
            Instr::Match,
        ]
    );
    assert!(both(&p, "abbbc"));
    assert!(both(&p, "ac"));
    assert!(!both(&p, "abd"));
    assert!(!both(&p, "a"));
    assert!(!both(&p, "bc"));
    assert!(both(&p, "abc"));
    assert!(both(&p, "acx")); // unanchored: "ac" is a matching prefix
}

#[test]
fn compilation_is_idempotent() {
    let first = compiled("..a*bc");
    let second = compiled("..a*bc");
    assert_eq!(first, second);
    let third = compiled("*|c.ab");
    let fourth = compiled("*|c.ab");
    assert_eq!(third, fourth);
}

#[test]
fn boundary_empty_input() {
    // zero repetitions match the empty input
    assert!(both(&compiled("*a"), ""));
    // a plain literal pattern does not
    assert!(!both(&compiled("a"), ""));
}

#[test]
fn repetition_alone() {
    let p = compiled("*a");
    assert_eq!(
        p,
        vec![
            Instr::Split(1, 3),
            Instr::Char('a'),
            Instr::Jmp(0),
            Instr::Match,
        ]
    );
    assert!(both(&p, ""));
    assert!(both(&p, "a"));
    assert!(both(&p, "aa"));
    // Unanchored: zero repetitions match the empty prefix of any input, so a
    // bare repetition accepts everything, "b" included.
    assert!(both(&p, "b"));
}

#[test]
fn nested_grouping() {
    // *|c.ab is (ab|c)* in the usual notation
    let p = compiled("*|c.ab");
    assert!(both(&p, ""));
    assert!(both(&p, "c"));
    assert!(both(&p, "ab"));
    assert!(both(&p, "abc"));
    assert!(both(&p, "cab"));
    assert!(both(&p, "ababcc"));
}

#[test]
fn trailing_pattern_text_is_ignored() {
    // a single parse consumes one node; whatever follows it is ignored
    assert_eq!(compiled("ab"), compiled("a"));
    assert_eq!(compiled("|abXYZ"), compiled("|ab"));
}

#[test]
fn malformed_patterns_are_reported() {
    assert!(compile("").is_err());
    assert!(compile(".").is_err());
    assert!(compile(".a").is_err());
    assert!(compile("|").is_err());
    assert!(compile("|a").is_err());
    assert!(compile("*").is_err());
    assert!(compile("..ab").is_err());
}

#[test]
fn compiled_code_is_well_formed() {
    for pattern in ["a", ".ab", "|ab", "*a", "..a*bc", "*|c.ab", ".*ab", "**a"] {
        let p = compiled(pattern);
        let n = p.len();
        assert!(n > 0);
        assert_eq!(p[n - 1], Instr::Match, "pattern {:?}", pattern);
        let mut accepting: usize = 0;
        for ins in &p {
            match *ins {
                Instr::Match => accepting += 1,
                Instr::Jmp(t) => assert!(t < n, "pattern {:?}", pattern),
                Instr::Split(t1, t2) => {
                    assert!(t1 < n && t2 < n, "pattern {:?}", pattern);
                }
                Instr::Char(_) => {}
            }
        }
        assert_eq!(accepting, 1, "pattern {:?}", pattern);
    }
}

#[test]
fn nested_repetition_compiles() {
    // **a parses and compiles, though evaluating it would not terminate:
    // its outer loop body can match the empty word.
    let p = compiled("**a");
    assert_eq!(
        p,
        vec![
            Instr::Split(1, 5),
            Instr::Split(2, 4),
            Instr::Char('a'),
            Instr::Jmp(1),
            Instr::Jmp(0),
            Instr::Match,
        ]
    );
}

#[test]
fn evaluators_agree() {
    let patterns = ["a", ".ab", "|ab", "*a", "..a*bc", "*|c.ab", ".*ab", ".a|bc", "|.ab.ba"];
    let inputs = ["", "a", "b", "c", "ab", "ba", "bc", "aab", "abab", "abbbc", "ac", "abd", "x"];
    for pattern in patterns {
        let p = compiled(pattern);
        for input in inputs {
            let chars = as_chars(input);
            assert_eq!(
                recursive::eval(&p, &chars),
                stack::eval(&p, &chars),
                "pattern {:?}, input {:?}",
                pattern,
                input
            );
        }
    }
}
