//! A reference evaluator of postfix sequences with the arithmetic the
//! generated code performs: 32-bit signed operations that wrap on
//! overflow, and a division that truncates toward zero and traps on a zero
//! divisor or on the one overflowing quotient.

use vstd::prelude::*;
use vstd::arithmetic::div_mod::{lemma_div_nonincreasing, lemma_div_is_ordered_by_denominator};

use crate::codegen::spec_parse_i32;
use crate::tokens::{Oper, Token, Tok, model, models};

verus! {

/// Magnitude of an integer.
pub open spec fn spec_abs(x: int) -> int {
    if x < 0 {
        -x
    } else {
        x
    }
}

/// Quotient truncated toward zero, as the native divide instruction
/// computes it.
pub open spec fn div_trunc(a: int, b: int) -> int {
    if (a < 0) == (b < 0) {
        spec_abs(a) / spec_abs(b)
    } else {
        -(spec_abs(a) / spec_abs(b))
    }
}

/// The 32-bit result of one operator, or `None` where the divide
/// instruction traps: a zero divisor, or the smallest value divided by
/// minus one.
pub open spec fn spec_apply(o: Oper, a: i32, b: i32) -> Option<i32> {
    match o {
        Oper::Add => Some(vstd::wrapping::i32_specs::wrapping_add(a, b)),
        Oper::Sub => Some(vstd::wrapping::i32_specs::wrapping_sub(a, b)),
        Oper::Mul => Some(vstd::wrapping::i32_specs::wrapping_mul(a, b)),
        Oper::Div => if b == 0 || (a == i32::MIN && b == -1) {
            None
        } else {
            Some(div_trunc(a as int, b as int) as i32)
        },
    }
}

/// Left-to-right evaluation of a postfix sequence from position `i` on
/// against an operand stack: an operand is pushed; an operator pops its
/// right then its left operand and pushes left-op-right.  `None` on an
/// operand outside the 32-bit range, a stack underflow, a grouping mark,
/// a trapping division, or a final stack that does not hold exactly the
/// one result.
pub open spec fn spec_eval_from(pf: Seq<Tok>, i: int, st: Seq<i32>) -> Option<i32>
    decreases pf.len() - i,
{
    if i < 0 {
        None
    } else if i >= pf.len() {
        if st.len() == 1 {
            Some(st[0])
        } else {
            None
        }
    } else {
        match pf[i] {
            Tok::Num(d) => (match spec_parse_i32(d) {
                Some(v) => spec_eval_from(pf, i + 1, st.push(v as i32)),
                None => None,
            }),
            Tok::Op(o) => if st.len() >= 2 {
                match spec_apply(o, st[st.len() - 2], st.last()) {
                    Some(v) => spec_eval_from(pf, i + 1, st.drop_last().drop_last().push(v)),
                    None => None,
                }
            } else {
                None
            },
            _ => None,
        }
    }
}

/// The value of a postfix sequence, evaluated from an empty stack.
pub open spec fn spec_eval(pf: Seq<Tok>) -> Option<i32> {
    spec_eval_from(pf, 0, Seq::empty())
}

/// Truncating 32-bit division, on the inputs where the divide instruction
/// does not trap.
fn div_trunc_i32(a: i32, b: i32) -> (r: i32)
    requires
        b != 0,
        !(a == i32::MIN && b == -1),
    ensures
        r as int == div_trunc(a as int, b as int),
{
    let ua: u32 = if a >= 0 {
        a as u32
    } else {
        (-(a as i64)) as u32
    };
    let ub: u32 = if b >= 0 {
        b as u32
    } else {
        (-(b as i64)) as u32
    };
    proof {
        assert(ua as int == spec_abs(a as int));
        assert(ub as int == spec_abs(b as int));
    }
    let q: u32 = ua / ub;
    proof {
        lemma_div_nonincreasing(ua as int, ub as int);
        if ub >= 2 {
            lemma_div_is_ordered_by_denominator(ua as int, 2, ub as int);
            assert(ua as int / 2 <= 0x4000_0000);
        } else {
            assert(ub == 1);
            assert(b == 1 || b == -1);
        }
    }
    if (a < 0) != (b < 0) {
        (-(q as i64)) as i32
    } else {
        q as i32
    }
}

/// Carry out one operator on its two operands, or report the trap.
pub fn apply_op(o: Oper, a: i32, b: i32) -> (r: Option<i32>)
    ensures
        r == spec_apply(o, a, b),
{
    match o {
        Oper::Add => Some(a.wrapping_add(b)),
        Oper::Sub => Some(a.wrapping_sub(b)),
        Oper::Mul => Some(a.wrapping_mul(b)),
        Oper::Div => if b == 0 || (a == i32::MIN && b == -1) {
            None
        } else {
            Some(div_trunc_i32(a, b))
        },
    }
}

/// Evaluate a postfix token sequence left to right against an operand
/// stack, with the 32-bit arithmetic of the generated code.  `None` where
/// the generated code would be rejected or its native run would not return
/// a value: an operand outside the 32-bit range, a grouping mark, a stack
/// underflow or leftover, or a trapping division.
pub fn eval_postfix(postfix: &Vec<Token>) -> (r: Option<i32>)
    ensures
        r == spec_eval(models(postfix@)),
{
    let ghost m = models(postfix@);
    let n = postfix.len();
    let mut st: Vec<i32> = Vec::new();
    let mut i: usize = 0;
    while i < n
        invariant
            n == postfix@.len(),
            m == models(postfix@),
            m.len() == n,
            i <= n,
            spec_eval(m) == spec_eval_from(m, i as int, st@),
        decreases n - i,
    {
        proof {
            assert(m[i as int] == model(postfix@[i as int]));
        }
        match &postfix[i] {
            Token::Num(d) => {
                match crate::codegen::parse_i32_digits(d) {
                    Some(v) => {
                        st.push(v);
                    },
                    None => {
                        return None;
                    },
                }
            },
            Token::Op(o) => {
                if st.len() < 2 {
                    return None;
                }
                let b = match st.pop() {
                    Some(x) => x,
                    None => {
                        proof {
                            assert(false);
                        }
                        0
                    },
                };
                let a = match st.pop() {
                    Some(x) => x,
                    None => {
                        proof {
                            assert(false);
                        }
                        0
                    },
                };
                let v = match apply_op(*o, a, b) {
                    Some(v) => v,
                    None => {
                        return None;
                    },
                };
                st.push(v);
            },
            Token::Open => {
                return None;
            },
            Token::Close => {
                return None;
            },
        }
        i = i + 1;
    }
    if st.len() == 1 {
        Some(st[0])
    } else {
        None
    }
}

} // verus!
