//! The fold evaluator. It reads the token stream once, keeps one stack of
//! pending operands and one stack of open nesting levels, and folds pending
//! operations by precedence and parenthesis boundaries. It does no
//! arithmetic: each fold is written out as an instruction of a postfix
//! program, in the order the folds happen, and the numeric back end runs
//! that program.

use vstd::prelude::*;
use crate::op::{Op, binds_tighter};
use crate::token::{
    Token, token_at, lits_fit, literals, lemma_skip_space_bounds, stream_ok, accepts, num_pos, op_pos, lemma_accepted_is_balanced,
};

verus! {

/// One instruction of a postfix program over a stack of numbers.
#[derive(Clone, Copy, Debug, PartialEq, Eq, Structural)]
pub enum Instr {
    /// Push zero: the value of the sentinel that starts each nesting level.
    Zero,
    /// Push the value of the numeric literal `text[start..end]`.
    Lit { start: usize, end: usize },
    /// Pop `b`, pop `a`, push `a op b`.
    Apply(Op),
}

#[derive(Clone, Copy, Debug, PartialEq, Eq, Structural)]
pub enum EvalError {
    /// The token stream does not follow the grammar.
    Syntax,
}

/// The stack height after one more instruction; `None` once a pop found
/// too few operands.
pub open spec fn step(d: Option<nat>, x: Instr) -> Option<nat> {
    match d {
        None => None,
        Some(n) => match x {
            Instr::Apply(_) => if n >= 2 { Some((n - 1) as nat) } else { None },
            _ => Some(n + 1),
        },
    }
}

/// The stack height after running `p` from an empty stack.
pub open spec fn stack_depth(p: Seq<Instr>) -> Option<nat>
    decreases p.len(),
{
    if p.len() == 0 {
        Some(0)
    } else {
        step(stack_depth(p.drop_last()), p.last())
    }
}

/// Running `p` never pops an empty stack and leaves exactly one number.
pub open spec fn well_formed(p: Seq<Instr>) -> bool {
    stack_depth(p) == Some(1nat)
}

/// A literal instruction names a literal of the text, as the length table gives it.
pub open spec fn lit_ok(x: Instr, text: Seq<char>, lits: Seq<usize>) -> bool {
    match x {
        Instr::Lit { start, end } => start < end <= text.len() && end == start + lits[start as int],
        _ => true,
    }
}

/// Every literal instruction of `p` names a literal of the text.
pub open spec fn lits_valid(p: Seq<Instr>, text: Seq<char>, lits: Seq<usize>) -> bool {
    forall|i: int| 0 <= i < p.len() ==> lit_ok(#[trigger] p[i], text, lits)
}

/// The literal spans that a program pushes, in order.
pub open spec fn pushed_lits(p: Seq<Instr>) -> Seq<(usize, usize)>
    decreases p.len(),
{
    if p.len() == 0 {
        seq![]
    } else {
        let rest = pushed_lits(p.drop_last());
        match p.last() {
            Instr::Lit { start, end } => rest.push((start, end)),
            _ => rest,
        }
    }
}

/// The literal spans after one more instruction.
pub open spec fn pushed_after(ls: Seq<(usize, usize)>, x: Instr) -> Seq<(usize, usize)> {
    match x {
        Instr::Lit { start, end } => ls.push((start, end)),
        _ => ls,
    }
}

/// A value written symbolically: what a postfix program computes, with
/// each literal left unevaluated.
pub enum Term {
    Zero,
    Lit(usize, usize),
    Bin(Op, Box<Term>, Box<Term>),
}

/// The stack of terms after one more instruction.
pub open spec fn term_step(st: Seq<Term>, x: Instr) -> Seq<Term> {
    match x {
        Instr::Zero => st.push(Term::Zero),
        Instr::Lit { start, end } => st.push(Term::Lit(start, end)),
        Instr::Apply(o) => if st.len() >= 2 {
            st.take(st.len() - 2).push(
                Term::Bin(o, Box::new(st[st.len() - 2]), Box::new(st[st.len() - 1])),
            )
        } else {
            seq![]
        },
    }
}

/// The stack of terms after running `p` from an empty stack.
pub open spec fn run_terms(p: Seq<Instr>) -> Seq<Term>
    decreases p.len(),
{
    if p.len() == 0 {
        seq![]
    } else {
        term_step(run_terms(p.drop_last()), p.last())
    }
}

/// The operand at `j` is followed by an operator that binds tighter than
/// the one that follows the operand at `j`.
pub open spec fn tighter_at(s: Seq<(Term, Option<Op>)>, j: int) -> bool {
    match (s[j].1, s[j + 1].1) {
        (Some(a), Some(b)) => binds_tighter(b, a),
        _ => false,
    }
}

/// The first operator, from `j` on, that the next one does not bind
/// tighter than: the place where operator precedence combines first.
pub open spec fn handle(s: Seq<(Term, Option<Op>)>, j: int) -> int
    decreases s.len() - j,
{
    if j + 2 >= s.len() || !tighter_at(s, j) {
        j
    } else {
        handle(s, j + 1)
    }
}

/// The term of a chain of operands, each with the operator that follows it
/// (`None` after the last): combine at the first place where the next
/// operator does not bind tighter, and repeat. With the ranks of `Op`
/// this groups `+ - * /` to the left and `^` to the right.
pub open spec fn reduce(s: Seq<(Term, Option<Op>)>) -> Term
    decreases s.len(),
{
    if s.len() == 0 {
        Term::Zero
    } else if s.len() == 1 {
        s[0].0
    } else {
        let j = handle(s, 0);
        if 0 <= j <= s.len() - 2 {
            let o = match s[j].1 {
                Some(o) => o,
                None => Op::Add,
            };
            reduce(
                s.take(j) + seq![(Term::Bin(o, Box::new(s[j].0), Box::new(s[j + 1].0)), s[j + 1].1)]
                    + s.skip(j + 2),
            )
        } else {
            Term::Zero
        }
    }
}

/// The operands of the text from a number position on, each with the
/// operator after it, as long as numbers and operators alternate.
pub open spec fn operands(text: Seq<char>, lits: Seq<usize>, pos: int) -> Seq<(Term, Option<Op>)>
    decreases text.len() - pos,
{
    let (t, np) = token_at(text, lits, pos, true);
    match t {
        Token::Num { start, end } => if np <= pos || np > text.len() {
            seq![]
        } else {
            let (u, nq) = token_at(text, lits, np, false);
            match u {
                Token::Op(o) => if nq <= np || nq > text.len() {
                    seq![]
                } else {
                    seq![(Term::Lit(start, end), Some(o))] + operands(text, lits, nq)
                },
                _ => seq![(Term::Lit(start, end), None)],
            }
        },
        _ => seq![],
    }
}

/// The text holds no parenthesis.
pub open spec fn paren_free(text: Seq<char>) -> bool {
    forall|i: int| 0 <= i < text.len() ==> #[trigger] text[i] != '(' && text[i] != ')'
}

/// The value of a text without parentheses: its operands after the
/// sentinel zero and its addition, grouped by precedence.
pub open spec fn flat_term(text: Seq<char>, lits: Seq<usize>) -> Term {
    reduce(seq![(Term::Zero, Some(Op::Add))] + operands(text, lits, 0))
}

/// The operands are followed by ever tighter-binding operators.
pub open spec fn rising(s: Seq<(Term, Option<Op>)>) -> bool {
    forall|i: int| 0 <= i < s.len() - 1 ==> #[trigger] tighter_at(s, i)
}

pub open spec fn terms(s: Seq<(Term, Option<Op>)>) -> Seq<Term> {
    s.map_values(|x: (Term, Option<Op>)| x.0)
}

proof fn lemma_handle(s: Seq<(Term, Option<Op>)>, i: int, k: int)
    requires
        0 <= i <= k <= s.len() - 2,
        forall|m: int| i <= m < k ==> #[trigger] tighter_at(s, m),
        !tighter_at(s, k),
    ensures
        handle(s, i) == k,
    decreases k - i,
{
    if i < k {
        assert(tighter_at(s, i));
        lemma_handle(s, i + 1, k);
    }
}

/// Where the operands before `l` rise and the operator after `r` does not
/// bind tighter than the one after `l`, grouping combines `l` and `r` first.
proof fn lemma_reduce_at(
    a: Seq<(Term, Option<Op>)>,
    l: (Term, Option<Op>),
    r: (Term, Option<Op>),
    rest: Seq<(Term, Option<Op>)>,
    o: Op,
)
    requires
        rising(a.push(l)),
        l.1 == Some(o),
        !(r.1 matches Some(b) && binds_tighter(b, o)),
    ensures
        reduce(a + seq![l, r] + rest) == reduce(
            a + seq![(Term::Bin(o, Box::new(l.0), Box::new(r.0)), r.1)] + rest,
        ),
{
    let s = a + seq![l, r] + rest;
    let k = a.len() as int;
    assert(s[k] == l);
    assert(s[k + 1] == r);
    assert forall|m: int| 0 <= m < k implies #[trigger] tighter_at(s, m) by {
        assert(tighter_at(a.push(l), m));
        assert(s[m] == a.push(l)[m]);
        assert(s[m + 1] == a.push(l)[m + 1]);
    }
    lemma_handle(s, 0, k);
    assert(s.take(k) =~= a);
    assert(s.skip(k + 2) =~= rest);
    assert(s.take(k) + seq![(Term::Bin(o, Box::new(s[k].0), Box::new(s[k + 1].0)), s[k + 1].1)]
        + s.skip(k + 2) =~= a + seq![(Term::Bin(o, Box::new(l.0), Box::new(r.0)), r.1)] + rest);
}

proof fn lemma_push(p: Seq<Instr>, x: Instr, text: Seq<char>, lits: Seq<usize>)
    requires
        lits_valid(p, text, lits),
        lit_ok(x, text, lits),
    ensures
        stack_depth(p.push(x)) == step(stack_depth(p), x),
        pushed_lits(p.push(x)) == pushed_after(pushed_lits(p), x),
        run_terms(p.push(x)) == term_step(run_terms(p), x),
        lits_valid(p.push(x), text, lits),
{
    assert(p.push(x).drop_last() =~= p);
    assert forall|i: int| 0 <= i < p.push(x).len() implies lit_ok(#[trigger] p.push(x)[i], text, lits) by {
        if i < p.len() {
            assert(p.push(x)[i] == p[i]);
        }
    }
}

fn emit(out: &mut Vec<Instr>, x: Instr, Ghost(text): Ghost<Seq<char>>, Ghost(lits): Ghost<Seq<usize>>)
    requires
        lits_valid(old(out)@, text, lits),
        lit_ok(x, text, lits),
    ensures
        final(out)@ == old(out)@.push(x),
        stack_depth(final(out)@) == step(stack_depth(old(out)@), x),
        pushed_lits(final(out)@) == pushed_after(pushed_lits(old(out)@), x),
        run_terms(final(out)@) == term_step(run_terms(old(out)@), x),
        lits_valid(final(out)@, text, lits),
{
    proof {
        lemma_push(out@, x, text, lits);
    }
    out.push(x);
}

/// An operand waiting to be combined with what follows it by `op`;
/// `None` after the last operand of the text. Its value lives on the
/// stack of the postfix program.
#[derive(Clone, Copy, Debug, PartialEq, Eq, Structural)]
pub struct Pair {
    pub op: Option<Op>,
}

impl Pair {
    /// The zero operand, followed by addition, that starts each nesting level.
    pub fn sentinel() -> (r: Pair)
        ensures
            r.op == Some(Op::Add),
    {
        Pair { op: Some(Op::Add) }
    }
}

/// One open nesting level: where its operands begin on the operand stack,
/// and how many closing parentheses it still needs.
#[derive(Clone, Copy, Debug, PartialEq, Eq, Structural)]
pub struct Group {
    pub base: usize,
    pub parens: usize,
}

/// The stack of enclosing levels: the outermost begins at the bottom of
/// the operand stack, each begins no lower than the one around it, and
/// the current one no lower than all of them.
pub open spec fn groups_ok(groups: Seq<Group>, group: Group, npairs: nat) -> bool {
    &&& npairs >= group.base
    &&& groups.len() == 0 ==> group.base == 0
    &&& groups.len() > 0 ==> groups[0].base == 0
    &&& forall|i: int| 0 <= i < groups.len() ==> #[trigger] groups[i].base <= group.base
    &&& forall|i: int, j: int| 0 <= i <= j < groups.len() ==> #[trigger] groups[i].base <= #[trigger] groups[j].base
}

/// Closing parentheses owed by the enclosing levels and the current one.
pub open spec fn owed(groups: Seq<Group>) -> int
    decreases groups.len(),
{
    if groups.len() == 0 {
        0
    } else {
        owed(groups.drop_last()) + groups.last().parens
    }
}

proof fn lemma_owed_nonneg(groups: Seq<Group>)
    ensures
        owed(groups) >= 0,
    decreases groups.len(),
{
    if groups.len() > 0 {
        lemma_owed_nonneg(groups.drop_last());
    }
}

proof fn lemma_owed_push(groups: Seq<Group>, g: Group)
    ensures
        owed(groups.push(g)) == owed(groups) + g.parens,
{
    assert(groups.push(g).drop_last() =~= groups);
}

/// The operands still to come: those from `pos` on, unless the end of the
/// text has been read.
pub open spec fn after(text: Seq<char>, lits: Seq<usize>, pos: int, op: Option<Op>) -> Seq<(Term, Option<Op>)> {
    if op is Some {
        operands(text, lits, pos)
    } else {
        seq![]
    }
}

proof fn lemma_no_parens(text: Seq<char>, lits: Seq<usize>, pos: int, numbers: bool)
    requires
        0 <= pos <= text.len(),
        paren_free(text),
    ensures
        token_at(text, lits, pos, numbers).0 != Token::Open,
        token_at(text, lits, pos, numbers).0 != Token::Close,
{
    lemma_skip_space_bounds(text, pos);
}

proof fn lemma_terms_push(s: Seq<(Term, Option<Op>)>, x: (Term, Option<Op>))
    ensures
        terms(s.push(x)) == terms(s).push(x.0),
{
    assert(terms(s.push(x)) =~= terms(s).push(x.0));
}

proof fn lemma_rising_drop(s: Seq<(Term, Option<Op>)>, x: (Term, Option<Op>))
    requires
        rising(s.push(x)),
    ensures
        rising(s),
{
    assert forall|i: int| 0 <= i < s.len() - 1 implies #[trigger] tighter_at(s, i) by {
        assert(tighter_at(s.push(x), i));
        assert(s.push(x)[i] == s[i]);
        assert(s.push(x)[i + 1] == s[i + 1]);
    }
}

proof fn lemma_rising_push(s: Seq<(Term, Option<Op>)>, x: (Term, Option<Op>), y: (Term, Option<Op>), a: Op, b: Op)
    requires
        rising(s.push(x)),
        x.1 == Some(a),
        y.1 == Some(b),
        binds_tighter(b, a),
    ensures
        rising(s.push(x).push(y)),
{
    let t = s.push(x);
    assert forall|i: int| 0 <= i < t.push(y).len() - 1 implies #[trigger] tighter_at(t.push(y), i) by {
        if i < t.len() - 1 {
            assert(tighter_at(t, i));
            assert(t.push(y)[i] == t[i]);
            assert(t.push(y)[i + 1] == t[i + 1]);
        } else {
            assert(t.push(y)[i] == x);
            assert(t.push(y)[i + 1] == y);
        }
    }
}

/// Folds the text into a postfix program. `lits[i]` is the length of the
/// numeric literal that starts at position `i` of the text (zero where
/// none does). On success the token stream is one that a well-formed
/// expression can have; running the program pops no empty stack and
/// leaves one number, the value of the expression; the literals it pushes
/// are those of the text, in order; and, for a text without parentheses,
/// the term it computes is the operands grouped by precedence.
pub fn solve(text: &Vec<char>, lits: &Vec<usize>) -> (r: Result<Vec<Instr>, EvalError>)
    requires
        lits_fit(text@, lits@),
    ensures
        r matches Ok(p) ==> well_formed(p@) && lits_valid(p@, text@, lits@),
        r is Ok <==> accepts(text@, lits@),
        r is Ok ==> stream_ok(text@, lits@),
        r matches Ok(p) ==> pushed_lits(p@) == literals(text@, lits@, 0, true),
        r matches Ok(p) ==> (paren_free(text@) ==> run_terms(p@) == seq![flat_term(text@, lits@)]),
{
    let ghost gt = text@;
    let ghost gl = lits@;
    let mut out: Vec<Instr> = Vec::new();
    let mut pairs: Vec<Pair> = Vec::new();
    let mut groups: Vec<Group> = Vec::new();
    let mut r = Pair::sentinel();
    let ghost mut gs: Seq<(Term, Option<Op>)> = seq![];
    let ghost mut rt: Term = Term::Zero;
    let mut group = Group { base: 0, parens: 1 };
    let mut pos: usize = 0;
    emit(&mut out, Instr::Zero, Ghost(gt), Ghost(gl));

    loop
        invariant
            gt == text@,
            gl == lits@,
            pos <= text.len(),
            lits_fit(text@, lits@),
            stack_depth(out@) == Some((pairs.len() + 1) as nat),
            lits_valid(out@, gt, gl),
            groups_ok(groups@, group, pairs.len() as nat),
            r.op is None ==> pos == text.len(),
            r.op is Some ==> accepts(gt, gl) == num_pos(gt, gl, pos as int, owed(groups@) + group.parens - 1),
            r.op is None ==> !accepts(gt, gl),
            forall|i: int| 0 <= i < pairs.len() ==> (#[trigger] pairs@[i]).op is Some,
            forall|i: int| 0 <= i < groups.len() ==> (#[trigger] groups@[i]).parens >= 1,
            group.parens >= 1,
            literals(gt, gl, 0, true) == pushed_lits(out@) + literals(gt, gl, pos as int, true),
            gs.len() == pairs.len(),
            forall|i: int| 0 <= i < pairs.len() ==> (#[trigger] gs[i]).1 == pairs@[i].op,
            run_terms(out@) == terms(gs).push(rt),
            paren_free(gt) ==> groups.len() == 0 && group.base == 0 && group.parens == 1 && r.op is Some,
            paren_free(gt) ==> flat_term(gt, gl) == reduce(gs.push((rt, r.op)) + operands(gt, gl, pos as int)),
            paren_free(gt) ==> rising(gs.push((rt, r.op))),
        decreases text.len() - pos,
    {
        let pos0 = pos;
        let mut l = r;
        let ghost mut lt: Term = rt;
        proof {
            lemma_owed_nonneg(groups@);
        }

        // A number position: any run of opening parentheses, then a literal.
        let mut nopen: usize = 0;
        let mut ns: usize = 0;
        let mut ne: usize = 0;
        loop
            invariant_except_break
                r.op is Some ==> accepts(gt, gl) == num_pos(gt, gl, pos as int, owed(groups@) + group.parens + nopen - 1),
                literals(gt, gl, 0, true) == pushed_lits(out@) + literals(gt, gl, pos as int, true),
                paren_free(gt) ==> pos == pos0 && nopen == 0,
            invariant
                owed(groups@) >= 0,
                group.parens >= 1,
                gt == text@,
                gl == lits@,
                pos0 <= pos <= text.len(),
                nopen <= pos,
                lits_fit(text@, lits@),
                r.op is None ==> pos == text.len(),
                r.op is None ==> !accepts(gt, gl),
            ensures
                accepts(gt, gl) == op_pos(gt, gl, pos as int, owed(groups@) + group.parens + nopen - 1),
                pos0 < pos <= text.len(),
                nopen <= pos,
                lit_ok(Instr::Lit { start: ns, end: ne }, text@, lits@),
                r.op is Some,
                literals(gt, gl, 0, true) == pushed_lits(out@) + seq![(ns, ne)] + literals(gt, gl, pos as int, false),
                paren_free(gt) ==> nopen == 0 && token_at(gt, gl, pos0 as int, true) == (Token::Num { start: ns, end: ne }, pos as int),
            decreases text.len() - pos,
        {
            proof {
                if paren_free(gt) {
                    lemma_no_parens(gt, gl, pos as int, true);
                }
            }
            let (t, np) = Token::get(text, lits, pos, true);
            match t {
                Token::Open => {
                    pos = np;
                    nopen = nopen + 1;
                },
                Token::Num { start, end } => {
                    pos = np;
                    ns = start;
                    ne = end;
                    break;
                },
                _ => {
                    return Err(EvalError::Syntax);
                },
            }
        }

        // An operator position: any run of closing parentheses, then an
        // operator or the end of the text, which closes one level itself.
        let pos1 = pos;
        let mut nclose: usize = 0;
        let mut op: Option<Op> = None;
        loop
            invariant_except_break
                nclose <= pos - pos1,
                op is None,
                accepts(gt, gl) == op_pos(gt, gl, pos as int, owed(groups@) + group.parens + nopen - 1 - nclose),
                paren_free(gt) ==> pos == pos1 && nclose == 0,
                literals(gt, gl, 0, true) == pushed_lits(out@) + seq![(ns, ne)] + literals(gt, gl, pos as int, false),
            invariant
                gt == text@,
                gl == lits@,
                1 <= pos1 <= pos <= text.len(),
                lits_fit(text@, lits@),
            ensures
                pos <= text.len(),
                nclose <= pos,
                op is None ==> nclose >= 1 && pos == text.len(),
                literals(gt, gl, 0, true) == pushed_lits(out@) + seq![(ns, ne)] + literals(gt, gl, pos as int, true),
                op is Some ==> accepts(gt, gl) == num_pos(gt, gl, pos as int, owed(groups@) + group.parens + nopen - 1 - nclose),
                op is None ==> accepts(gt, gl) == (owed(groups@) + group.parens + nopen - nclose == 0),
                paren_free(gt) ==> (op matches Some(o) ==> nclose == 0 && pos1 < pos
                    && token_at(gt, gl, pos1 as int, false) == (Token::Op(o), pos as int)),
                paren_free(gt) ==> (op is None ==> nclose == 1 && token_at(gt, gl, pos1 as int, false).0 == Token::Empty),
            decreases text.len() - pos,
        {
            proof {
                if paren_free(gt) {
                    lemma_no_parens(gt, gl, pos as int, false);
                }
            }
            let (t, np) = Token::get(text, lits, pos, false);
            pos = np;
            match t {
                Token::Close => {
                    nclose = nclose + 1;
                },
                Token::Op(x) => {
                    op = Some(x);
                    break;
                },
                Token::Empty => {
                    nclose = nclose + 1;
                    break;
                },
                _ => {
                    return Err(EvalError::Syntax);
                },
            }
        }

        r = Pair { op };
        proof {
            rt = Term::Lit(ns, ne);
            if paren_free(gt) {
                let x = (Term::Lit(ns, ne), op);
                if op is Some {
                    assert(operands(gt, gl, pos0 as int) == seq![x] + operands(gt, gl, pos as int));
                } else {
                    assert(operands(gt, gl, pos0 as int) =~= seq![x] + after(gt, gl, pos as int, op));
                }
                assert(gs.push((lt, l.op)) + operands(gt, gl, pos0 as int)
                    =~= gs + seq![(lt, l.op), (rt, r.op)] + after(gt, gl, pos as int, r.op));
            }
        }

        // Opening parentheses start a new level with its own sentinel.
        if nopen > 0 {
            proof {
                lemma_owed_push(groups@, group);
            }
            pairs.push(l);
            proof {
                lemma_terms_push(gs, (lt, l.op));
                gs = gs.push((lt, l.op));
                lt = Term::Zero;
            }
            groups.push(group);
            group = Group { base: pairs.len(), parens: nopen };
            l = Pair::sentinel();
            emit(&mut out, Instr::Zero, Ghost(gt), Ghost(gl));
        }
        let ghost before = pushed_lits(out@);
        emit(&mut out, Instr::Lit { start: ns, end: ne }, Ghost(gt), Ghost(gl));
        assert(before + seq![(ns, ne)] + literals(gt, gl, pos as int, true)
            =~= pushed_lits(out@) + literals(gt, gl, pos as int, true));

        let mut at_fold = true;
        loop
            invariant_except_break
                at_fold ==> stack_depth(out@) == Some((pairs.len() + 2) as nat),
                at_fold ==> run_terms(out@) == terms(gs).push(lt).push(rt),
                paren_free(gt) ==> at_fold ==> flat_term(gt, gl)
                    == reduce(gs + seq![(lt, l.op), (rt, r.op)] + after(gt, gl, pos as int, r.op)),
                paren_free(gt) ==> at_fold ==> rising(gs.push((lt, l.op))),
            invariant
                gs.len() == pairs.len(),
                forall|i: int| 0 <= i < pairs.len() ==> (#[trigger] gs[i]).1 == pairs@[i].op,
                !at_fold ==> run_terms(out@) == terms(gs).push(rt),
                paren_free(gt) ==> !at_fold ==> flat_term(gt, gl)
                    == reduce(gs + seq![(rt, r.op)] + after(gt, gl, pos as int, r.op)),
                paren_free(gt) ==> !at_fold ==> rising(gs),
                paren_free(gt) ==> groups.len() == 0 && group.base == 0,
                paren_free(gt) ==> (r.op is Some ==> nclose == 0 && group.parens == 1),
                paren_free(gt) ==> (r.op is None ==> group.parens == nclose),
                gt == text@,
                gl == lits@,
                pos <= text.len(),
                lits_fit(text@, lits@),
                !at_fold ==> stack_depth(out@) == Some((pairs.len() + 1) as nat),
                lits_valid(out@, gt, gl),
                groups_ok(groups@, group, pairs.len() as nat),
                r.op is None ==> pos == text.len(),
                r.op is Some ==> accepts(gt, gl) == num_pos(gt, gl, pos as int, owed(groups@) + group.parens - nclose - 1),
                r.op is None ==> accepts(gt, gl) == (owed(groups@) + group.parens - nclose == 0),
                l.op is Some,
                forall|i: int| 0 <= i < pairs.len() ==> (#[trigger] pairs@[i]).op is Some,
                forall|i: int| 0 <= i < groups.len() ==> (#[trigger] groups@[i]).parens >= 1,
                group.parens == 0 ==> (pairs.len() == group.base && !at_fold),
                literals(gt, gl, 0, true) == pushed_lits(out@) + literals(gt, gl, pos as int, true),
            ensures
                run_terms(out@) == terms(gs).push(rt),
                paren_free(gt) ==> groups.len() == 0 && group.base == 0 && group.parens == 1 && r.op is Some,
                paren_free(gt) ==> flat_term(gt, gl) == reduce(gs.push((rt, r.op)) + operands(gt, gl, pos as int)),
                paren_free(gt) ==> rising(gs.push((rt, r.op))),
                group.parens >= 1,
                stack_depth(out@) == Some((pairs.len() + 1) as nat),
                nclose == 0,
                r.op is None ==> !accepts(gt, gl),
            decreases groups.len(), 2 * pairs.len() + (if at_fold { 1int } else { 0int }), group.parens,
        {
            if at_fold {
                // Defer while the operator that follows binds tighter.
                if nclose == 0 {
                    if let (Some(a), Some(b)) = (r.op, l.op) {
                        if a.higher(&b) {
                            pairs.push(l);
                            proof {
                                lemma_terms_push(gs, (lt, l.op));
                                if paren_free(gt) {
                                    lemma_rising_push(gs, (lt, l.op), (rt, r.op), b, a);
                                    assert(gs + seq![(lt, l.op), (rt, r.op)] + after(gt, gl, pos as int, r.op)
                                        =~= gs.push((lt, l.op)).push((rt, r.op)) + operands(gt, gl, pos as int));
                                }
                                gs = gs.push((lt, l.op));
                            }
                            break;
                        }
                    }
                }
                let o = l.op.unwrap();
                proof {
                    let st = terms(gs).push(lt).push(rt);
                    assert(st.take(st.len() - 2) =~= terms(gs));
                    if paren_free(gt) {
                        lemma_reduce_at(gs, (lt, l.op), (rt, r.op), after(gt, gl, pos as int, r.op), o);
                        lemma_rising_drop(gs, (lt, l.op));
                    }
                }
                emit(&mut out, Instr::Apply(o), Ghost(gt), Ghost(gl));
                proof {
                    rt = Term::Bin(o, Box::new(lt), Box::new(rt));
                }
                at_fold = false;
            } else if pairs.len() > group.base {
                l = pairs.pop().unwrap();
                proof {
                    let g0 = gs;
                    lt = g0.last().0;
                    gs = g0.drop_last();
                    assert(g0 =~= gs.push((lt, l.op)));
                    lemma_terms_push(gs, (lt, l.op));
                    assert(g0 + seq![(rt, r.op)] =~= gs + seq![(lt, l.op), (rt, r.op)]);
                }
                at_fold = true;
            } else if group.parens > 0 {
                if nclose == 0 {
                    proof {
                        lemma_owed_nonneg(groups@);
                        if paren_free(gt) {
                            assert(gs + seq![(rt, r.op)] + after(gt, gl, pos as int, r.op)
                                =~= gs.push((rt, r.op)) + operands(gt, gl, pos as int));
                        }
                    }
                    break;
                }
                nclose = nclose - 1;
                group.parens = group.parens - 1;
            } else {
                match groups.pop() {
                    Some(g) => {
                        group = g;
                    },
                    None => {
                        if nclose == 0 && r.op.is_none() {
                            proof {
                                lemma_accepted_is_balanced(gt, gl);
                                assert(pushed_lits(out@) + literals(gt, gl, pos as int, true) =~= pushed_lits(out@));
                                assert(terms(gs).push(rt) =~= seq![rt]);
                                if paren_free(gt) {
                                    assert(gs + seq![(rt, r.op)] + after(gt, gl, pos as int, r.op)
                                        =~= seq![(rt, r.op)]);
                                }
                            }
                            return Ok(out);
                        } else {
                            return Err(EvalError::Syntax);
                        }
                    },
                }
            }
        }
    }
}

} // verus!
