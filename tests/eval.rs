use fold_eval::fold::{solve, EvalError, Group, Instr, Pair};
use fold_eval::op::Op;
use fold_eval::token::{is_space, Token};

fn chars_of(text: &str) -> Vec<char> {
    text.chars().collect()
}

fn literal_lengths(text: &str) -> Vec<usize> {
    let mut lits = Vec::new();
    for (b, _) in text.char_indices() {
        let n = match fast_float::parse_partial::<f64, _>(&text[b..]) {
            Ok((_, n)) => n,
            Err(_) => 0,
        };
        lits.push(n);
    }
    lits.push(0);
    lits
}

fn perform(op: Op, a: f64, b: f64) -> f64 {
    match op {
        Op::Add => a + b,
        Op::Sub => a - b,
        Op::Mul => a * b,
        Op::Div => a / b,
        Op::Exp => f64::powf(a, b),
    }
}

fn program(text: &str) -> Result<Vec<Instr>, EvalError> {
    solve(&chars_of(text), &literal_lengths(text))
}

fn evaluate(text: &str) -> Result<f64, EvalError> {
    let chars = chars_of(text);
    let prog = program(text)?;
    let mut stack: Vec<f64> = Vec::new();
    for instr in prog {
        match instr {
            Instr::Zero => stack.push(0.0),
            Instr::Lit { start, end } => {
                let lit: String = chars[start..end].iter().collect();
                let (x, _) = fast_float::parse_partial::<f64, _>(&lit).unwrap();
                stack.push(x);
            }
            Instr::Apply(op) => {
                let b = stack.pop().unwrap();
                let a = stack.pop().unwrap();
                stack.push(perform(op, a, b));
            }
        }
    }
    assert_eq!(stack.len(), 1);
    Ok(stack[0])
}

#[test]
fn left_associativity() {
    assert_eq!(evaluate("10 - 3 - 2"), Ok(5.0));
    assert_eq!(evaluate("64 / 4 / 2"), Ok(8.0));
}

#[test]
fn exponent_groups_right() {
    assert_eq!(evaluate("2 ^ 2 ^ 3"), Ok(256.0));
    assert_ne!(evaluate("2 ^ 2 ^ 3"), Ok(64.0));
    assert_eq!(evaluate("(2 ^ 2) ^ 3"), Ok(64.0));
}

#[test]
fn precedence() {
    assert_eq!(evaluate("2 + 3 * 4"), Ok(14.0));
    assert_eq!(evaluate("(2 + 3) * 4"), Ok(20.0));
    assert_eq!(evaluate("2 * 3 ^ 2 + 1"), Ok(19.0));
}

#[test]
fn division_by_zero_is_infinite() {
    assert_eq!(evaluate("1 / 0"), Ok(f64::INFINITY));
    let r = evaluate("0 / 0").unwrap();
    assert!(r.is_nan());
    assert_eq!(evaluate("0 ^ 0"), Ok(1.0));
}

#[test]
fn unmatched_parentheses_fail() {
    assert_eq!(evaluate("(1 + 2"), Err(EvalError::Syntax));
    assert_eq!(evaluate("1 + 2)"), Err(EvalError::Syntax));
    assert_eq!(evaluate("((1 + 2)"), Err(EvalError::Syntax));
}

#[test]
fn excess_closes_fail_and_balanced_succeed() {
    assert_eq!(evaluate("(1 + 2)))"), Err(EvalError::Syntax));
    assert_eq!(evaluate("((1 + 2))"), Ok(3.0));
    assert_eq!(evaluate("((1) + 2)"), Ok(3.0));
}

#[test]
fn empty_or_garbage_fails() {
    assert_eq!(evaluate(""), Err(EvalError::Syntax));
    assert_eq!(evaluate("   "), Err(EvalError::Syntax));
    assert_eq!(evaluate("+"), Err(EvalError::Syntax));
    assert_eq!(evaluate("1 + #"), Err(EvalError::Syntax));
    assert_eq!(evaluate("1 2"), Err(EvalError::Syntax));
    assert_eq!(evaluate("()"), Err(EvalError::Syntax));
}

#[test]
fn whitespace_is_ignored() {
    assert_eq!(evaluate("1+2"), evaluate(" 1 + 2 "));
    assert_eq!(evaluate("1+2"), Ok(3.0));
    assert_eq!(evaluate("(2+3)*4"), evaluate("\t( 2 + 3 )\n* 4 "));
    assert_eq!(evaluate("10-3-2"), Ok(5.0));
    assert_eq!(evaluate("(2*3)/4^2"), evaluate("\t( 2 * 3 )\n/ 4 ^ 2 "));
    assert_eq!(evaluate("(2*3)/4^2"), Ok(0.375));
    assert_eq!(evaluate("7\u{a0}*\u{3000}6"), Ok(42.0));
}

#[test]
fn sign_after_an_operand_is_an_operator() {
    // Where an operator is expected, `+` and `-` are operators even when a
    // digit follows; where a number is expected, a sign belongs to it.
    assert_eq!(evaluate("1+2"), Ok(3.0));
    assert_eq!(evaluate("1-2"), Ok(-1.0));
    assert_eq!(evaluate("1 -2"), Ok(-1.0));
    assert_eq!(evaluate("2 * -3"), Ok(-6.0));
    assert_eq!(evaluate("2*-3"), Ok(-6.0));
    assert_eq!(evaluate("(-1)+-1"), Ok(-2.0));
    assert_eq!(evaluate("2 3"), Err(EvalError::Syntax));
}

#[test]
fn wrapping_in_parentheses_keeps_the_value() {
    for e in ["1 + 2 * 3", "2 ^ 2 ^ 3", "10 - 3 - 2", "(4) / 8", "1.5e3"] {
        let v = evaluate(e).unwrap();
        let once = format!("({})", e);
        let twice = format!("(({}))", e);
        assert_eq!(evaluate(&once), Ok(v));
        assert_eq!(evaluate(&twice), Ok(v));
    }
}

#[test]
fn reference_stress_case() {
    let v = evaluate(
        "100 - (((((((2 * (((100))))) / 4) + 2 ^ (5 / ((2 + 2) * 2))))) ^ 2 ^ 2) * 0.00001",
    )
    .unwrap();
    let golden = 29.424791137571333;
    assert!((v - golden).abs() <= 1e-12 * golden);
}

#[test]
fn literal_forms() {
    assert_eq!(evaluate("1.5e3 + .5"), Ok(1500.5));
    assert_eq!(evaluate("2.5E-1 * 4"), Ok(1.0));
    assert_eq!(evaluate("inf - 1"), Ok(f64::INFINITY));
}

#[test]
fn program_of_precedence() {
    // 2 + 3 * 4: the multiplication is deferred, then folded first.
    let p = program("2 + 3 * 4").unwrap();
    assert_eq!(
        p,
        vec![
            Instr::Zero,
            Instr::Lit { start: 0, end: 1 },
            Instr::Apply(Op::Add),
            Instr::Lit { start: 4, end: 5 },
            Instr::Lit { start: 8, end: 9 },
            Instr::Apply(Op::Mul),
            Instr::Apply(Op::Add),
        ]
    );
}

#[test]
fn program_of_group() {
    let p = program("(7)").unwrap();
    assert_eq!(
        p,
        vec![
            Instr::Zero,
            Instr::Zero,
            Instr::Lit { start: 1, end: 2 },
            Instr::Apply(Op::Add),
            Instr::Apply(Op::Add),
        ]
    );
}

#[test]
fn tokenizer_reads_each_kind() {
    let text = chars_of("  ( ) + - * / ^ 12.5 #");
    let lits = literal_lengths("  ( ) + - * / ^ 12.5 #");
    let (t, p) = Token::get(&text, &lits, 0, true);
    assert_eq!((t, p), (Token::Open, 3));
    let (t, p) = Token::get(&text, &lits, p, false);
    assert_eq!((t, p), (Token::Close, 5));
    let expected = [Op::Add, Op::Sub, Op::Mul, Op::Div, Op::Exp];
    let mut p = p;
    for o in expected {
        let (t, np) = Token::get(&text, &lits, p, false);
        assert_eq!(t, Token::Op(o));
        p = np;
    }
    let (t, p) = Token::get(&text, &lits, p, true);
    assert_eq!((t, p), (Token::Num { start: 16, end: 20 }, 20));
    let (t, p2) = Token::get(&text, &lits, p, true);
    assert_eq!((t, p2), (Token::Invalid, 21));
    let (t, p3) = Token::get(&text, &lits, text.len(), true);
    assert_eq!((t, p3), (Token::Empty, text.len()));
    // A sign before a digit: part of a number where one is expected, an
    // operator elsewhere.
    let text = chars_of("-5");
    let lits = literal_lengths("-5");
    assert_eq!(Token::get(&text, &lits, 0, true), (Token::Num { start: 0, end: 2 }, 2));
    assert_eq!(Token::get(&text, &lits, 0, false), (Token::Op(Op::Sub), 1));
    // Digits where an operator is expected start no token.
    assert_eq!(Token::get(&text, &lits, 1, false), (Token::Invalid, 1));
}

#[test]
fn whitespace_characters() {
    for c in [' ', '\t', '\n', '\r', '\u{b}', '\u{c}', '\u{85}', '\u{a0}', '\u{2003}', '\u{3000}'] {
        assert!(is_space(c));
        assert_eq!(is_space(c), c.is_whitespace());
    }
    for c in ['a', '0', '(', '\u{200b}', '\u{feff}'] {
        assert!(!is_space(c));
        assert_eq!(is_space(c), c.is_whitespace());
    }
}

#[test]
fn operator_ranks() {
    assert_eq!(Op::Add.rank(), 0);
    assert_eq!(Op::Sub.rank(), 0);
    assert_eq!(Op::Mul.rank(), 1);
    assert_eq!(Op::Div.rank(), 1);
    assert_eq!(Op::Exp.rank(), 2);
    assert!(Op::Exp.higher(&Op::Exp));
    assert!(Op::Mul.higher(&Op::Add));
    assert!(!Op::Add.higher(&Op::Sub));
    assert!(!Op::Mul.higher(&Op::Div));
    assert!(!Op::Add.higher(&Op::Exp));
    assert_eq!(Op::from_char('^'), Some(Op::Exp));
    assert_eq!(Op::from_char('x'), None);
}

#[test]
fn sentinel_and_group() {
    assert_eq!(Pair::sentinel().op, Some(Op::Add));
    let g = Group { base: 0, parens: 1 };
    assert_eq!(g.parens, 1);
}

#[test]
fn program_pushes_literals_in_text_order() {
    let p = program("(1 + 20) * 300 ^ 4").unwrap();
    let spans: Vec<(usize, usize)> = p
        .iter()
        .filter_map(|i| match *i {
            Instr::Lit { start, end } => Some((start, end)),
            _ => None,
        })
        .collect();
    assert_eq!(spans, vec![(1, 2), (5, 7), (11, 14), (17, 18)]);
    assert_eq!(evaluate("(1 + 20) * 300 ^ 4"), Ok(21.0 * 8.1e9));
}

#[test]
fn deep_nesting() {
    assert_eq!(evaluate("((((((((1))))))))"), Ok(1.0));
    assert_eq!(evaluate("((((((((1)))))))"), Err(EvalError::Syntax));
    assert_eq!(evaluate("(((2)) * ((3 + 4 * (5))))"), Ok(46.0));
}

#[test]
fn mixed_chains() {
    assert_eq!(evaluate("2 ^ 3 * 2"), Ok(16.0));
    assert_eq!(evaluate("1 - 2 * 3 ^ 2 / 6 + 4"), Ok(2.0));
    assert_eq!(evaluate("2 ^ 3 ^ 0 * 5 - 1"), Ok(9.0));
}
