//! A small just-in-time evaluator for arithmetic expressions.
//!
//! The pipeline is linear: an infix expression is translated to postfix
//! (shunting-yard), the postfix sequence is compiled to x86-64 machine code
//! for a stack machine, and a host maps the code into executable memory and
//! runs it.  The translation and code generation live here, verified; the
//! native execution host is ordinary Rust around this library.

use vstd::prelude::*;

pub mod codegen;
pub mod eval;
pub mod host;
pub mod laws;
pub mod machine;
pub mod tokens;
pub mod translate;

verus! {

/// The errors the pipeline can report before any code is executed.
#[derive(Clone, Copy, Debug, PartialEq, Eq, Structural)]
pub enum JitError {
    /// An input character is not a digit, operator, parenthesis or
    /// separator, or the expression is not a well-formed infix expression.
    MalformedExpression,
    /// An operand token does not denote a signed 32-bit integer.
    InvalidOperand,
    /// A postfix token is neither an operator nor an operand.
    UnsupportedOperator,
    /// The executable mapping for the generated code cannot be obtained.
    MemoryAllocationFailure,
}

} // verus!
