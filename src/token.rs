//! The tokenizer: from a position in the text to the next token and the
//! position after it.
//!
//! Numeric literals follow the floating-point literal grammar of the
//! numeric back end. The tokenizer does not parse numbers itself: it is
//! handed, for each position of the text, the length of the longest literal
//! that starts there (zero where none does), and a number token is the span
//! of that literal.

use vstd::prelude::*;
use crate::op::{Op, op_of_char};

verus! {

#[derive(Clone, Copy, Debug, PartialEq, Eq, Structural)]
pub enum Token {
    /// A character that starts no token; it is not consumed.
    Invalid,
    /// Nothing but whitespace is left.
    Empty,
    Open,
    Close,
    /// A numeric literal occupying `text[start..end]`.
    Num { start: usize, end: usize },
    Op(Op),
}

/// The White_Space characters of Unicode, which `char::is_whitespace` accepts.
pub open spec fn space_char(c: char) -> bool {
    let u = c as u32;
    (0x09 <= u <= 0x0d) || u == 0x20 || u == 0x85 || u == 0xa0 || u == 0x1680
        || (0x2000 <= u <= 0x200a) || u == 0x2028 || u == 0x2029 || u == 0x202f
        || u == 0x205f || u == 0x3000
}

pub fn is_space(c: char) -> (r: bool)
    ensures
        r == space_char(c),
{
    let u = c as u32;
    (0x09 <= u && u <= 0x0d) || u == 0x20 || u == 0x85 || u == 0xa0 || u == 0x1680
        || (0x2000 <= u && u <= 0x200a) || u == 0x2028 || u == 0x2029 || u == 0x202f
        || u == 0x205f || u == 0x3000
}

/// The first position at or after `pos` that holds no whitespace
/// (the length of the text if there is none).
pub open spec fn skip_space(text: Seq<char>, pos: int) -> int
    decreases text.len() - pos,
{
    if 0 <= pos < text.len() && space_char(text[pos]) {
        skip_space(text, pos + 1)
    } else {
        pos
    }
}

/// The literal-length table fits the text: one entry per position and one
/// for the end, and no literal runs past the end of the text.
pub open spec fn lits_fit(text: Seq<char>, lits: Seq<usize>) -> bool {
    &&& lits.len() == text.len() + 1
    &&& forall|i: int| 0 <= i < text.len() ==> #[trigger] lits[i] + i <= text.len()
}

/// The token that a single character stands for, if any.
pub open spec fn symbol_of(c: char) -> Option<Token> {
    if c == '(' {
        Some(Token::Open)
    } else if c == ')' {
        Some(Token::Close)
    } else {
        match op_of_char(c) {
            Some(o) => Some(Token::Op(o)),
            None => None,
        }
    }
}

/// The token read at `pos`, and the position after it. Where `numbers`
/// holds (a position where a number is expected) a literal comes before a
/// symbol, so a sign followed by a digit is part of the number; elsewhere
/// only symbols are read, so `+` and `-` there are operators.
pub open spec fn token_at(text: Seq<char>, lits: Seq<usize>, pos: int, numbers: bool) -> (Token, int) {
    let p = skip_space(text, pos);
    if p >= text.len() {
        (Token::Empty, p)
    } else if numbers && lits[p] > 0 {
        (Token::Num { start: p as usize, end: (p + lits[p]) as usize }, p + lits[p])
    } else {
        match symbol_of(text[p]) {
            Some(t) => (t, p + 1),
            None => (Token::Invalid, p),
        }
    }
}

/// What the token stream from a position holds, read as the evaluator
/// reads it (a number expected at `pos` where `numbers` holds, and after
/// each `(` and operator): its opening and closing
/// parentheses, numbers and operators, and whether it runs to the end of
/// the text (rather than stopping at a character that starts no token).
pub struct Tally {
    pub opens: nat,
    pub closes: nat,
    pub nums: nat,
    pub ops: nat,
    pub clean: bool,
}

/// Whether a number is expected after the token `t`.
pub open spec fn number_after(t: Token) -> bool {
    t == Token::Open || t is Op
}

pub open spec fn tally(text: Seq<char>, lits: Seq<usize>, pos: int, numbers: bool) -> Tally
    decreases text.len() - pos,
{
    let (t, np) = token_at(text, lits, pos, numbers);
    if t == Token::Empty {
        Tally { opens: 0, closes: 0, nums: 0, ops: 0, clean: true }
    } else if t == Token::Invalid || np <= pos || pos < 0 || np > text.len() {
        Tally { opens: 0, closes: 0, nums: 0, ops: 0, clean: false }
    } else {
        let rest = tally(text, lits, np, number_after(t));
        Tally {
            opens: rest.opens + if t == Token::Open { 1nat } else { 0nat },
            closes: rest.closes + if t == Token::Close { 1nat } else { 0nat },
            nums: rest.nums + if t is Num { 1nat } else { 0nat },
            ops: rest.ops + if t is Op { 1nat } else { 0nat },
            clean: rest.clean,
        }
    }
}

/// The spans of the numeric literals of the token stream from `pos` (read
/// as `tally` reads it), in order, up to the end of the text or the first character that starts no
/// token.
pub open spec fn literals(text: Seq<char>, lits: Seq<usize>, pos: int, numbers: bool) -> Seq<(usize, usize)>
    decreases text.len() - pos,
{
    let (t, np) = token_at(text, lits, pos, numbers);
    if t == Token::Empty || t == Token::Invalid || np <= pos || pos < 0 || np > text.len() {
        seq![]
    } else {
        let rest = literals(text, lits, np, number_after(t));
        match t {
            Token::Num { start, end } => seq![(start, end)] + rest,
            _ => rest,
        }
    }
}

/// The whole text is a stream of tokens that a well-formed expression can
/// have: it runs to the end, its parentheses pair up in number, and it holds
/// one number more than it holds operators. (In particular the empty text,
/// a lone operator, or a stray character do not qualify.)
pub open spec fn stream_ok(text: Seq<char>, lits: Seq<usize>) -> bool {
    let t = tally(text, lits, 0, true);
    t.clean && t.opens == t.closes && t.nums == t.ops + 1
}

/// The grammar, read as an automaton over the token stream. At a number
/// position `depth` parentheses are open: any run of `(` opens more, then a
/// literal moves to an operator position.
pub open spec fn num_pos(text: Seq<char>, lits: Seq<usize>, pos: int, depth: int) -> bool
    decreases text.len() - pos,
{
    let (t, np) = token_at(text, lits, pos, true);
    if depth < 0 || pos < 0 || np <= pos || np > text.len() {
        false
    } else if t == Token::Open {
        num_pos(text, lits, np, depth + 1)
    } else if t is Num {
        op_pos(text, lits, np, depth)
    } else {
        false
    }
}

/// At an operator position: each `)` closes one open parenthesis, an
/// operator moves to a number position, and the end of the text is
/// accepted when no parenthesis is left open.
pub open spec fn op_pos(text: Seq<char>, lits: Seq<usize>, pos: int, depth: int) -> bool
    decreases text.len() - pos,
{
    let (t, np) = token_at(text, lits, pos, false);
    if depth < 0 || pos < 0 {
        false
    } else if t == Token::Empty {
        depth == 0
    } else if np <= pos || np > text.len() {
        false
    } else if t == Token::Close {
        op_pos(text, lits, np, depth - 1)
    } else if t is Op {
        num_pos(text, lits, np, depth)
    } else {
        false
    }
}

/// The text is a well-formed expression.
pub open spec fn accepts(text: Seq<char>, lits: Seq<usize>) -> bool {
    num_pos(text, lits, 0, 0)
}

pub proof fn lemma_skip_space_bounds(text: Seq<char>, pos: int)
    requires
        0 <= pos <= text.len(),
    ensures
        pos <= skip_space(text, pos) <= text.len(),
        skip_space(text, pos) < text.len() ==> !space_char(text[skip_space(text, pos)]),
    decreases text.len() - pos,
{
    if pos < text.len() && space_char(text[pos]) {
        lemma_skip_space_bounds(text, pos + 1);
    }
}

impl Token {
    /// Reads the token at `pos`: skips whitespace, then, where a number is
    /// expected, takes a numeric literal if one starts there, else a single
    /// symbol character.
    pub fn get(text: &Vec<char>, lits: &Vec<usize>, pos: usize, numbers: bool) -> (r: (Token, usize))
        requires
            pos <= text.len(),
            lits_fit(text@, lits@),
        ensures
            (r.0, r.1 as int) == token_at(text@, lits@, pos as int, numbers),
            pos <= r.1 <= text.len(),
            r.0 != Token::Empty && r.0 != Token::Invalid ==> pos < r.1,
            r.0 == Token::Empty ==> r.1 == text.len(),
            r.0 matches Token::Num { start, end } ==> start < end <= text.len() && end == r.1
                && end == start + lits@[start as int],
    {
        let mut p = pos;
        while p < text.len() && is_space(text[p])
            invariant
                pos <= p <= text.len(),
                skip_space(text@, p as int) == skip_space(text@, pos as int),
            decreases text.len() - p,
        {
            p = p + 1;
        }
        proof {
            lemma_skip_space_bounds(text@, p as int);
        }
        if p >= text.len() {
            return (Token::Empty, p);
        }
        if numbers {
            let n = lits[p];
            if n > 0 {
                assert(lits@[p as int] + p <= text.len());
                return (Token::Num { start: p, end: p + n }, p + n);
            }
        }
        let c = text[p];
        let t = match c {
            '(' => Token::Open,
            ')' => Token::Close,
            _ => match Op::from_char(c) {
                Some(o) => Token::Op(o),
                None => {
                    return (Token::Invalid, p);
                },
            },
        };
        (t, p + 1)
    }
}

/// The text inside one more pair of parentheses.
pub open spec fn wrapped(text: Seq<char>) -> Seq<char> {
    seq!['('] + text + seq![')']
}

/// The literal table of the wrapped text: neither parenthesis starts a
/// literal, and each position of the text keeps its entry.
pub open spec fn wrapped_lits(text: Seq<char>, lits: Seq<usize>, wlits: Seq<usize>) -> bool {
    &&& wlits.len() == text.len() + 3
    &&& wlits[0] == 0
    &&& wlits[text.len() + 1int] == 0
    &&& forall|i: int| 0 <= i < text.len() ==> #[trigger] wlits[i + 1] == lits[i]
}

proof fn lemma_wrapped_index(text: Seq<char>)
    ensures
        wrapped(text).len() == text.len() + 2,
        wrapped(text)[0] == '(',
        wrapped(text)[text.len() + 1int] == ')',
        forall|i: int| 0 <= i < text.len() ==> #[trigger] wrapped(text)[i + 1] == text[i],
{
    let w = wrapped(text);
    assert(w[0] == '(');
    assert(w[text.len() + 1int] == ')');
    assert forall|i: int| 0 <= i < text.len() implies #[trigger] w[i + 1] == text[i] by {
        assert((seq!['('] + text)[i + 1] == text[i]);
    }
}

proof fn lemma_wrapped_skip(text: Seq<char>, pos: int)
    requires
        0 <= pos <= text.len(),
    ensures
        skip_space(wrapped(text), pos + 1) == skip_space(text, pos) + 1,
    decreases text.len() - pos,
{
    lemma_wrapped_index(text);
    if pos < text.len() && space_char(text[pos]) {
        lemma_wrapped_skip(text, pos + 1);
    } else if pos == text.len() {
        assert(!space_char(')'));
    }
}

/// Inside the text, the wrapped text reads the same kind of token, one
/// position further on; at the end of the text it reads the added `)`.
proof fn lemma_wrapped_token(text: Seq<char>, lits: Seq<usize>, wlits: Seq<usize>, pos: int, numbers: bool)
    requires
        0 <= pos <= text.len(),
        lits_fit(text, lits),
        wrapped_lits(text, lits, wlits),
    ensures
        ({
            let (t, np) = token_at(text, lits, pos, numbers);
            let (u, nq) = token_at(wrapped(text), wlits, pos + 1, numbers);
            if t == Token::Empty {
                u == Token::Close && nq == text.len() + 2
            } else {
                nq == np + 1 && (t is Num <==> u is Num) && (!(t is Num) ==> u == t)
            }
        }),
{
    lemma_wrapped_index(text);
    lemma_wrapped_skip(text, pos);
    lemma_skip_space_bounds(text, pos);
}

proof fn lemma_wrapped_end(text: Seq<char>, wlits: Seq<usize>)
    ensures
        token_at(wrapped(text), wlits, text.len() + 2int, false).0 == Token::Empty,
{
    lemma_wrapped_index(text);
}

proof fn lemma_wrapped_num(text: Seq<char>, lits: Seq<usize>, wlits: Seq<usize>, pos: int, depth: int)
    requires
        0 <= pos <= text.len(),
        lits_fit(text, lits),
        wrapped_lits(text, lits, wlits),
        num_pos(text, lits, pos, depth),
    ensures
        num_pos(wrapped(text), wlits, pos + 1, depth + 1),
    decreases text.len() - pos, 1int,
{
    lemma_wrapped_token(text, lits, wlits, pos, true);
    lemma_wrapped_index(text);
    let (t, np) = token_at(text, lits, pos, true);
    if t == Token::Open {
        lemma_wrapped_num(text, lits, wlits, np, depth + 1);
    } else {
        lemma_wrapped_op(text, lits, wlits, np, depth);
    }
}

proof fn lemma_wrapped_op(text: Seq<char>, lits: Seq<usize>, wlits: Seq<usize>, pos: int, depth: int)
    requires
        0 <= pos <= text.len(),
        lits_fit(text, lits),
        wrapped_lits(text, lits, wlits),
        op_pos(text, lits, pos, depth),
    ensures
        op_pos(wrapped(text), wlits, pos + 1, depth + 1),
    decreases text.len() - pos, 0int,
{
    lemma_wrapped_token(text, lits, wlits, pos, false);
    lemma_wrapped_index(text);
    let (t, np) = token_at(text, lits, pos, false);
    if t == Token::Empty {
        lemma_wrapped_end(text, wlits);
        assert(op_pos(wrapped(text), wlits, text.len() + 2int, depth));
    } else if t == Token::Close {
        lemma_wrapped_op(text, lits, wlits, np, depth - 1);
    } else {
        lemma_wrapped_num(text, lits, wlits, np, depth);
    }
}

/// Wrapping a well-formed expression in parentheses gives a well-formed
/// expression.
pub proof fn lemma_wrap_accepts(text: Seq<char>, lits: Seq<usize>, wlits: Seq<usize>)
    requires
        lits_fit(text, lits),
        wrapped_lits(text, lits, wlits),
        accepts(text, lits),
    ensures
        accepts(wrapped(text), wlits),
{
    lemma_wrapped_index(text);
    lemma_wrapped_num(text, lits, wlits, 0, 0);
    assert(skip_space(wrapped(text), 0) == 0);
}

/// The text with a space in front and one behind.
pub open spec fn padded(text: Seq<char>) -> Seq<char> {
    seq![' '] + text + seq![' ']
}

/// The literal table of the padded text: no space starts a literal, and
/// each position of the text keeps its entry.
pub open spec fn padded_lits(text: Seq<char>, lits: Seq<usize>, plits: Seq<usize>) -> bool {
    &&& plits.len() == text.len() + 3
    &&& plits[0] == 0
    &&& plits[text.len() + 1int] == 0
    &&& forall|i: int| 0 <= i < text.len() ==> #[trigger] plits[i + 1] == lits[i]
}

proof fn lemma_padded_index(text: Seq<char>)
    ensures
        padded(text).len() == text.len() + 2,
        padded(text)[0] == ' ',
        padded(text)[text.len() + 1int] == ' ',
        forall|i: int| 0 <= i < text.len() ==> #[trigger] padded(text)[i + 1] == text[i],
{
    let w = padded(text);
    assert(w[0] == ' ');
    assert(w[text.len() + 1int] == ' ');
    assert forall|i: int| 0 <= i < text.len() implies #[trigger] w[i + 1] == text[i] by {
        assert((seq![' '] + text)[i + 1] == text[i]);
    }
}

proof fn lemma_padded_skip(text: Seq<char>, pos: int)
    requires
        0 <= pos <= text.len(),
    ensures
        skip_space(padded(text), pos + 1) == if skip_space(text, pos) < text.len() {
            skip_space(text, pos) + 1
        } else {
            text.len() + 2int
        },
    decreases text.len() - pos,
{
    lemma_padded_index(text);
    lemma_skip_space_bounds(text, pos);
    if pos < text.len() && space_char(text[pos]) {
        lemma_padded_skip(text, pos + 1);
    } else if pos == text.len() {
        assert(space_char(' '));
        assert(skip_space(padded(text), text.len() + 2int) == text.len() + 2);
    }
}

/// Inside the text, the padded text reads the same kind of token, one
/// position further on; at the end of the text both read the end.
proof fn lemma_padded_token(text: Seq<char>, lits: Seq<usize>, plits: Seq<usize>, pos: int, numbers: bool)
    requires
        0 <= pos <= text.len(),
        lits_fit(text, lits),
        padded_lits(text, lits, plits),
    ensures
        ({
            let (t, np) = token_at(text, lits, pos, numbers);
            let (u, nq) = token_at(padded(text), plits, pos + 1, numbers);
            &&& (t is Num <==> u is Num)
            &&& !(t is Num) ==> u == t
            &&& t != Token::Empty ==> nq == np + 1
        }),
{
    lemma_padded_index(text);
    lemma_padded_skip(text, pos);
    lemma_skip_space_bounds(text, pos);
}

proof fn lemma_padded_num(text: Seq<char>, lits: Seq<usize>, plits: Seq<usize>, pos: int, depth: int)
    requires
        0 <= pos <= text.len(),
        lits_fit(text, lits),
        padded_lits(text, lits, plits),
    ensures
        num_pos(padded(text), plits, pos + 1, depth) == num_pos(text, lits, pos, depth),
    decreases text.len() - pos, 1int,
{
    lemma_padded_token(text, lits, plits, pos, true);
    lemma_padded_index(text);
    lemma_skip_space_bounds(text, pos);
    let (t, np) = token_at(text, lits, pos, true);
    if depth >= 0 && np > pos && np <= text.len() {
        if t == Token::Open {
            lemma_padded_num(text, lits, plits, np, depth + 1);
        } else if t is Num {
            lemma_padded_op(text, lits, plits, np, depth);
        }
    }
}

proof fn lemma_padded_op(text: Seq<char>, lits: Seq<usize>, plits: Seq<usize>, pos: int, depth: int)
    requires
        0 <= pos <= text.len(),
        lits_fit(text, lits),
        padded_lits(text, lits, plits),
    ensures
        op_pos(padded(text), plits, pos + 1, depth) == op_pos(text, lits, pos, depth),
    decreases text.len() - pos, 0int,
{
    lemma_padded_token(text, lits, plits, pos, false);
    lemma_padded_index(text);
    lemma_skip_space_bounds(text, pos);
    let (t, np) = token_at(text, lits, pos, false);
    if depth >= 0 && t != Token::Empty && np > pos && np <= text.len() {
        if t == Token::Close {
            lemma_padded_op(text, lits, plits, np, depth - 1);
        } else if t is Op {
            lemma_padded_num(text, lits, plits, np, depth);
        }
    }
}

/// Whitespace in front of and behind the text changes nothing about
/// whether it is a well-formed expression.
pub proof fn lemma_padding_keeps_acceptance(text: Seq<char>, lits: Seq<usize>, plits: Seq<usize>)
    requires
        lits_fit(text, lits),
        padded_lits(text, lits, plits),
    ensures
        accepts(padded(text), plits) == accepts(text, lits),
{
    lemma_padded_index(text);
    lemma_padded_num(text, lits, plits, 0, 0);
    lemma_padded_token(text, lits, plits, 0, true);
    lemma_skip_space_bounds(text, 0);
    assert(skip_space(padded(text), 0) == skip_space(padded(text), 1));
    assert(token_at(padded(text), plits, 0, true) == token_at(padded(text), plits, 1, true));
    assert(num_pos(padded(text), plits, 0, 0) == num_pos(padded(text), plits, 1, 0));
}

proof fn lemma_num_tally(text: Seq<char>, lits: Seq<usize>, pos: int, depth: int)
    requires
        num_pos(text, lits, pos, depth),
    ensures
        tally(text, lits, pos, true).clean,
        tally(text, lits, pos, true).opens + depth == tally(text, lits, pos, true).closes,
        tally(text, lits, pos, true).nums == tally(text, lits, pos, true).ops + 1,
    decreases text.len() - pos, 1int,
{
    let (t, np) = token_at(text, lits, pos, true);
    if t == Token::Open {
        lemma_num_tally(text, lits, np, depth + 1);
    } else {
        lemma_op_tally(text, lits, np, depth);
    }
}

proof fn lemma_op_tally(text: Seq<char>, lits: Seq<usize>, pos: int, depth: int)
    requires
        op_pos(text, lits, pos, depth),
    ensures
        tally(text, lits, pos, false).clean,
        tally(text, lits, pos, false).opens + depth == tally(text, lits, pos, false).closes,
        tally(text, lits, pos, false).nums == tally(text, lits, pos, false).ops,
    decreases text.len() - pos, 0int,
{
    let (t, np) = token_at(text, lits, pos, false);
    if t == Token::Close {
        lemma_op_tally(text, lits, np, depth - 1);
    } else if t is Op {
        lemma_num_tally(text, lits, np, depth);
    }
}

/// A well-formed expression runs to the end of the text, has as many
/// closing as opening parentheses, and one number more than operators.
/// So a text with unmatched parentheses, an empty text, a lone operator or
/// a stray character is never accepted.
pub proof fn lemma_accepted_is_balanced(text: Seq<char>, lits: Seq<usize>)
    requires
        accepts(text, lits),
    ensures
        stream_ok(text, lits),
{
    lemma_num_tally(text, lits, 0, 0);
}

} // verus!
