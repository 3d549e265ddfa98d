//! Tokens of the expression language and their mathematical model.

use vstd::prelude::*;

verus! {

/// The four binary operators of the language.
#[derive(Clone, Copy, Debug, PartialEq, Eq, Structural)]
pub enum Oper {
    Add,
    Sub,
    Mul,
    Div,
}

/// A semantic unit of the input: an operator, a grouping mark, or an
/// operand literal.  An operand keeps the characters it was written with
/// (an optional leading minus sign followed by decimal digits); whether it
/// denotes a 32-bit value is decided by the code generator.
#[derive(Debug, PartialEq, Eq)]
pub enum Token {
    Op(Oper),
    Open,
    Close,
    Num(Vec<char>),
}

/// The model of a token: the same shape, with the operand text as a
/// sequence of characters.
pub enum Tok {
    Op(Oper),
    Open,
    Close,
    Num(Seq<char>),
}

/// The model of one token.
pub open spec fn model(t: Token) -> Tok {
    match t {
        Token::Op(o) => Tok::Op(o),
        Token::Open => Tok::Open,
        Token::Close => Tok::Close,
        Token::Num(d) => Tok::Num(d@),
    }
}

/// The model of a token sequence, element by element.
pub open spec fn models(ts: Seq<Token>) -> Seq<Tok> {
    ts.map_values(|t: Token| model(t))
}

pub proof fn lemma_models_push(ts: Seq<Token>, t: Token)
    ensures
        models(ts.push(t)) == models(ts).push(model(t)),
{
    assert(models(ts.push(t)) =~= models(ts).push(model(t)));
}

/// Precedence of an operator: multiplicative above additive.
pub open spec fn spec_prec_op(o: Oper) -> int {
    match o {
        Oper::Mul | Oper::Div => 2,
        Oper::Add | Oper::Sub => 1,
    }
}

/// Precedence of a token on the operator stack; a grouping mark ranks
/// below every operator, so it never blocks a precedence comparison.
pub open spec fn spec_prec(t: Tok) -> int {
    match t {
        Tok::Op(o) => spec_prec_op(o),
        _ => 0,
    }
}

/// Runtime precedence of an operator.
pub fn prec_op(o: Oper) -> (r: u8)
    ensures
        r as int == spec_prec_op(o),
{
    match o {
        Oper::Mul | Oper::Div => 2,
        Oper::Add | Oper::Sub => 1,
    }
}

} // verus!
