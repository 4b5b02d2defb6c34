//! An infix arithmetic evaluator for `+ - * / ^` and parentheses, in two
//! parts: a tokenizer and an operator-precedence folder that read the text
//! in one pass and turn it into a postfix program, and a numeric back end
//! that runs that program.
//!
//! The library holds the first part. `fold::solve` accepts exactly the
//! texts that `token::accepts` describes, and the program it returns pops
//! no empty stack, leaves one value and pushes the literals of the text in
//! order. For a text without parentheses the value is fixed too: run over
//! symbolic terms, the program leaves exactly `fold::flat_term`, the
//! operands grouped by precedence, `+ - * /` to the left and `^` to the
//! right.

pub mod op;
pub mod token;
pub mod fold;
