//! Postfix-to-machine-code generation: instruction selection for a native
//! stack machine on x86-64.
//!
//! Each operand becomes a push of a 32-bit immediate; each operator pops
//! its two operands (right first), computes left-op-right in 32-bit
//! arithmetic, and pushes the result; the trailer pops the final value into
//! the return register and returns.

use vstd::prelude::*;

use crate::JitError;
use crate::tokens::{Oper, Token, Tok, model, models};
use crate::translate::is_digit;

verus! {

/// Numeric value of a digit character.
pub open spec fn digit_val(c: char) -> int {
    c as u32 - 48
}

/// Value of a digit string, most significant first.
pub open spec fn digits_val(d: Seq<char>) -> int
    decreases d.len(),
{
    if d.len() == 0 {
        0
    } else {
        digits_val(d.drop_last()) * 10 + digit_val(d.last())
    }
}

/// Whether every character is a digit.
pub open spec fn all_digits(d: Seq<char>) -> bool {
    forall|k: int| 0 <= k < d.len() ==> is_digit(d[k])
}

/// The signed 32-bit value an operand text denotes: an optional minus sign
/// followed by digits, within the range of the type; `None` otherwise.
pub open spec fn spec_parse_i32(d: Seq<char>) -> Option<int> {
    if d.len() > 0 && d[0] == '-' {
        let mag = d.subrange(1, d.len() as int);
        if mag.len() > 0 && all_digits(mag) && -digits_val(mag) >= i32::MIN {
            Some(-digits_val(mag))
        } else {
            None
        }
    } else if d.len() > 0 && all_digits(d) && digits_val(d) <= i32::MAX {
        Some(digits_val(d))
    } else {
        None
    }
}

pub proof fn lemma_digits_val_nonneg(d: Seq<char>)
    requires
        all_digits(d),
    ensures
        digits_val(d) >= 0,
    decreases d.len(),
{
    if d.len() > 0 {
        assert(all_digits(d.drop_last()));
        lemma_digits_val_nonneg(d.drop_last());
    }
}

/// A digit string is at least as large as any of its prefixes.
proof fn lemma_digits_val_prefix(d: Seq<char>, j: int)
    requires
        0 <= j <= d.len(),
        all_digits(d),
    ensures
        digits_val(d.subrange(0, j)) <= digits_val(d),
    decreases d.len() - j,
{
    if j == d.len() {
        assert(d.subrange(0, j) =~= d);
    } else {
        assert(d.subrange(0, j + 1).drop_last() =~= d.subrange(0, j));
        assert(d.subrange(0, j + 1).last() == d[j]);
        assert(all_digits(d.subrange(0, j)));
        lemma_digits_val_nonneg(d.subrange(0, j));
        lemma_digits_val_prefix(d, j + 1);
    }
}

/// Parse an operand text as a signed 32-bit integer.
pub fn parse_i32_digits(d: &Vec<char>) -> (r: Option<i32>)
    ensures
        (match r {
            Some(v) => spec_parse_i32(d@) == Some(v as int),
            None => spec_parse_i32(d@) is None,
        }),
{
    let len = d.len();
    let neg = len > 0 && d[0] == '-';
    let start: usize = if neg {
        1
    } else {
        0
    };
    let ghost mag = if neg {
        d@.subrange(1, d@.len() as int)
    } else {
        d@
    };
    if len == start {
        return None;
    }
    let mut acc: u64 = 0;
    let mut k: usize = start;
    while k < len
        invariant
            len == d@.len(),
            start <= k <= len,
            start == (if neg { 1int } else { 0int }),
            neg ==> (len > 0 && d@[0] == '-' && mag == d@.subrange(1, d@.len() as int)),
            !neg ==> (mag == d@ && (len > 0 ==> d@[0] != '-')),
            mag.len() == len - start,
            acc <= 0x8000_0000,
            acc as int == digits_val(mag.subrange(0, k - start)),
            all_digits(mag.subrange(0, k - start)),
        decreases len - k,
    {
        let c = d[k];
        let cv = c as u32;
        if !(48 <= cv && cv <= 57) {
            proof {
                assert(mag[k - start] == d@[k as int]);
                assert(!is_digit(mag[k - start]));
            }
            return None;
        }
        let dv: u64 = (cv - 48) as u64;
        let ghost j = k - start;
        proof {
            assert(mag.subrange(0, j + 1).drop_last() =~= mag.subrange(0, j));
            assert(mag.subrange(0, j + 1).last() == mag[j]);
            assert(mag[j] == d@[k as int]);
        }
        let acc2: u64 = acc * 10 + dv;
        if acc2 > 0x8000_0000 {
            proof {
                if all_digits(mag) {
                    lemma_digits_val_prefix(mag, j + 1);
                }
            }
            return None;
        }
        acc = acc2;
        k = k + 1;
    }
    proof {
        assert(mag.subrange(0, (len - start) as int) =~= mag);
    }
    if neg {
        Some((-(acc as i64)) as i32)
    } else {
        if acc > 0x7fff_ffff {
            return None;
        }
        Some(acc as i32)
    }
}

/// The little-endian bytes of a 32-bit immediate in two's complement.
pub open spec fn le_imm(v: int) -> Seq<u8> {
    let u = (v + 0x1_0000_0000) % 0x1_0000_0000;
    seq![
        (u % 256) as u8,
        ((u / 256) % 256) as u8,
        ((u / 65536) % 256) as u8,
        ((u / 16777216) % 256) as u8,
    ]
}

/// The instruction group of one operator: pop the right operand, pop the
/// left operand, compute left-op-right in 32 bits, push the result.
/// Division sign-extends the dividend into the wide register pair first.
pub open spec fn op_group(o: Oper) -> Seq<u8> {
    match o {
        // pop rdx; pop rax; add eax, edx; push rax
        Oper::Add => seq![0x5au8, 0x58u8, 0x01u8, 0xd0u8, 0x50u8],
        // pop rdx; pop rax; sub eax, edx; push rax
        Oper::Sub => seq![0x5au8, 0x58u8, 0x29u8, 0xd0u8, 0x50u8],
        // pop rdx; pop rax; imul edx; push rax
        Oper::Mul => seq![0x5au8, 0x58u8, 0xf7u8, 0xeau8, 0x50u8],
        // pop rcx; pop rax; cdq; idiv ecx; push rax
        Oper::Div => seq![0x59u8, 0x58u8, 0x99u8, 0xf7u8, 0xf9u8, 0x50u8],
    }
}

/// The trailer: pop rax; ret.
pub open spec fn trailer() -> Seq<u8> {
    seq![0x58u8, 0xc3u8]
}

/// The code bytes for the postfix tokens from position `i` on, or the
/// first failure: an operand that does not denote a 32-bit value, or a
/// grouping mark, which has no instruction.
pub open spec fn spec_gen_from(pf: Seq<Tok>, i: int) -> Result<Seq<u8>, JitError>
    decreases pf.len() - i,
{
    if i < 0 || i >= pf.len() {
        Ok(trailer())
    } else {
        match pf[i] {
            Tok::Op(o) => (match spec_gen_from(pf, i + 1) {
                Ok(rest) => Ok(op_group(o) + rest),
                Err(e) => Err(e),
            }),
            Tok::Num(dd) => (match spec_parse_i32(dd) {
                Some(v) => (match spec_gen_from(pf, i + 1) {
                    Ok(rest) => Ok(seq![0x68u8] + le_imm(v) + rest),
                    Err(e) => Err(e),
                }),
                None => Err(JitError::InvalidOperand),
            }),
            _ => Err(JitError::UnsupportedOperator),
        }
    }
}

/// The code image of a postfix sequence, or its first failure.
pub open spec fn spec_generate(pf: Seq<Tok>) -> Result<Seq<u8>, JitError> {
    spec_gen_from(pf, 0)
}

/// Append the push-immediate instruction for a literal.
fn emit_imm(code: &mut Vec<u8>, v: i32)
    ensures
        final(code)@ == old(code)@ + seq![0x68u8] + le_imm(v as int),
{
    let ghost base = code@;
    code.push(0x68);
    let u: u32 = if v >= 0 {
        v as u32
    } else {
        ((v as i64) + 0x1_0000_0000i64) as u32
    };
    proof {
        assert(u as int == (v as int + 0x1_0000_0000) % 0x1_0000_0000);
    }
    code.push((u % 256) as u8);
    code.push(((u / 256) % 256) as u8);
    code.push(((u / 65536) % 256) as u8);
    code.push(((u / 16777216) % 256) as u8);
    proof {
        assert(code@ =~= base + seq![0x68u8] + le_imm(v as int));
    }
}

/// Append the instruction group of one operator.
fn emit_op(code: &mut Vec<u8>, o: Oper)
    ensures
        final(code)@ == old(code)@ + op_group(o),
{
    let ghost base = code@;
    match o {
        Oper::Add => {
            code.push(0x5a);
            code.push(0x58);
            code.push(0x01);
            code.push(0xd0);
            code.push(0x50);
        },
        Oper::Sub => {
            code.push(0x5a);
            code.push(0x58);
            code.push(0x29);
            code.push(0xd0);
            code.push(0x50);
        },
        Oper::Mul => {
            code.push(0x5a);
            code.push(0x58);
            code.push(0xf7);
            code.push(0xea);
            code.push(0x50);
        },
        Oper::Div => {
            code.push(0x59);
            code.push(0x58);
            code.push(0x99);
            code.push(0xf7);
            code.push(0xf9);
            code.push(0x50);
        },
    }
    proof {
        assert(code@ =~= base + op_group(o));
    }
}

/// Generate the machine-code image of a postfix token sequence: one
/// instruction group per token, in order, then the trailer.  Fails on an
/// operand outside the signed 32-bit range, and on a grouping mark, which
/// signals a postfix sequence obtained from unbalanced input.
pub fn generate_machine_code(postfix: &Vec<Token>) -> (r: Result<Vec<u8>, JitError>)
    ensures
        (match r {
            Ok(code) => spec_generate(models(postfix@)) == Ok::<Seq<u8>, JitError>(code@),
            Err(e) => spec_generate(models(postfix@)) == Err::<Seq<u8>, JitError>(e),
        }),
{
    let ghost m = models(postfix@);
    let n = postfix.len();
    let mut code: Vec<u8> = Vec::new();
    let mut i: usize = 0;
    while i < n
        invariant
            n == postfix@.len(),
            m == models(postfix@),
            m.len() == n,
            i <= n,
            (spec_generate(m) == match spec_gen_from(m, i as int) {
                Ok(rest) => Ok::<Seq<u8>, JitError>(code@ + rest),
                Err(e) => Err::<Seq<u8>, JitError>(e),
            }),
        decreases n - i,
    {
        proof {
            assert(m[i as int] == model(postfix@[i as int]));
        }
        let ghost prev_code = code@;
        match &postfix[i] {
            Token::Op(o) => {
                emit_op(&mut code, *o);
                proof {
                    if spec_gen_from(m, i + 1) is Ok {
                        let rest = spec_gen_from(m, i + 1)->Ok_0;
                        assert((prev_code + op_group(*o)) + rest =~= prev_code + (op_group(*o)
                            + rest));
                    }
                }
            },
            Token::Num(d) => {
                match parse_i32_digits(d) {
                    Some(v) => {
                        emit_imm(&mut code, v);
                        proof {
                            if spec_gen_from(m, i + 1) is Ok {
                                let rest = spec_gen_from(m, i + 1)->Ok_0;
                                assert((prev_code + seq![0x68u8] + le_imm(v as int)) + rest
                                    =~= prev_code + (seq![0x68u8] + le_imm(v as int) + rest));
                            }
                        }
                    },
                    None => {
                        return Err(JitError::InvalidOperand);
                    },
                }
            },
            Token::Open => {
                return Err(JitError::UnsupportedOperator);
            },
            Token::Close => {
                return Err(JitError::UnsupportedOperator);
            },
        }
        i = i + 1;
    }
    let ghost prev_code = code@;
    code.push(0x58);
    code.push(0xc3);
    proof {
        assert(code@ =~= prev_code + trailer());
    }
    Ok(code)
}

} // verus!
