//! A reference model of how the target runs the generated code: an
//! interpreter of exactly the instruction forms the generator emits, over
//! an operand stack.  Its value on a generated image provably equals the
//! postfix evaluation the image was generated from, which ties the byte
//! level of the pipeline to its arithmetic; anything the model cannot
//! decode, and any run that would corrupt the native stack, has no defined
//! value.

use vstd::prelude::*;
use vstd::arithmetic::div_mod::{
    lemma_fundamental_div_mod,
    lemma_div_denominator,
};

use crate::codegen::{le_imm, op_group, spec_gen_from, spec_generate, trailer};
use crate::eval::{spec_apply, spec_eval, spec_eval_from};
use crate::tokens::{Oper, Tok};

verus! {

/// The signed 32-bit value of four little-endian bytes.
pub open spec fn le_val(b0: u8, b1: u8, b2: u8, b3: u8) -> i32 {
    let u = b0 + 256 * b1 + 65536 * b2 + 16777216 * b3;
    if u >= 0x8000_0000 {
        (u - 0x1_0000_0000) as i32
    } else {
        u as i32
    }
}

/// Reading back the little-endian bytes of a 32-bit value gives the value.
pub proof fn lemma_le_round_trip(v: int)
    requires
        i32::MIN <= v <= i32::MAX,
    ensures
        le_imm(v).len() == 4,
        le_val(le_imm(v)[0], le_imm(v)[1], le_imm(v)[2], le_imm(v)[3]) as int == v,
{
    let u = (v + 0x1_0000_0000) % 0x1_0000_0000;
    assert(0 <= u < 0x1_0000_0000);
    lemma_fundamental_div_mod(u, 256);
    lemma_div_denominator(u, 256, 256);
    lemma_fundamental_div_mod(u / 256, 256);
    lemma_div_denominator(u, 65536, 256);
    lemma_fundamental_div_mod(u / 65536, 256);
    assert(u / 16777216 < 256);
    assert((u / 16777216) % 256 == u / 16777216) by {
        lemma_fundamental_div_mod(u / 16777216, 256);
        lemma_div_denominator(u, 16777216, 256);
        assert(u / 16777216 / 256 == u / 4294967296);
    };
    assert(u % 256 + 256 * ((u / 256) % 256) + 65536 * ((u / 65536) % 256) + 16777216 * ((u
        / 16777216) % 256) == u);
    if v >= 0 {
        assert(u == v);
    } else {
        assert(u == v + 0x1_0000_0000);
    }
}

/// The run of the code from offset `i` on, against an operand stack.  One
/// instruction group is decoded and carried out per step; the trailer
/// returns the single remaining value.  A byte form the generator never
/// emits, a popped return address (stack underflow), values left beneath
/// the return address (stack leftover), and a trapping division all leave
/// the run without a defined value.
pub open spec fn spec_run(code: Seq<u8>, i: int, st: Seq<i32>) -> Option<i32>
    decreases code.len() - i,
{
    if i < 0 || i + 2 > code.len() {
        None
    } else if code[i] == 0x68 {
        if i + 5 <= code.len() {
            spec_run(
                code,
                i + 5,
                st.push(le_val(code[i + 1], code[i + 2], code[i + 3], code[i + 4])),
            )
        } else {
            None
        }
    } else if code[i] == 0x58 {
        if code[i + 1] == 0xc3 && i + 2 == code.len() && st.len() == 1 {
            Some(st[0])
        } else {
            None
        }
    } else if code[i] == 0x5a {
        if i + 5 <= code.len() && code[i + 1] == 0x58 && code[i + 4] == 0x50 {
            let o = if code[i + 2] == 0x01 && code[i + 3] == 0xd0 {
                Some(Oper::Add)
            } else if code[i + 2] == 0x29 && code[i + 3] == 0xd0 {
                Some(Oper::Sub)
            } else if code[i + 2] == 0xf7 && code[i + 3] == 0xea {
                Some(Oper::Mul)
            } else {
                None
            };
            match o {
                Some(op) => if st.len() >= 2 {
                    match spec_apply(op, st[st.len() - 2], st.last()) {
                        Some(v) => spec_run(code, i + 5, st.drop_last().drop_last().push(v)),
                        None => None,
                    }
                } else {
                    None
                },
                None => None,
            }
        } else {
            None
        }
    } else if code[i] == 0x59 {
        if i + 6 <= code.len() && code[i + 1] == 0x58 && code[i + 2] == 0x99 && code[i + 3] == 0xf7
            && code[i + 4] == 0xf9 && code[i + 5] == 0x50 {
            if st.len() >= 2 {
                match spec_apply(Oper::Div, st[st.len() - 2], st.last()) {
                    Some(v) => spec_run(code, i + 6, st.drop_last().drop_last().push(v)),
                    None => None,
                }
            } else {
                None
            }
        } else {
            None
        }
    } else {
        None
    }
}

/// The run of a whole code image from an empty stack.
pub open spec fn spec_run_image(code: Seq<u8>) -> Option<i32> {
    spec_run(code, 0, Seq::empty())
}

/// Where the code from offset `pos` on reads `pre + rest`, the bytes of
/// `pre` stand at `pos`, and `rest` is the code from `pos + pre.len()` on.
proof fn lemma_tail(code: Seq<u8>, pos: int, pre: Seq<u8>, rest: Seq<u8>)
    requires
        0 <= pos <= code.len(),
        code.subrange(pos, code.len() as int) == pre + rest,
    ensures
        pos + pre.len() + rest.len() == code.len(),
        code.subrange(pos + pre.len(), code.len() as int) == rest,
        forall|k: int| 0 <= k < pre.len() ==> code[pos + k] == #[trigger] pre[k],
{
    let suffix = code.subrange(pos, code.len() as int);
    assert(suffix.len() == pre.len() + rest.len());
    assert forall|k: int| 0 <= k < pre.len() implies code[pos + k] == #[trigger] pre[k] by {
        assert(suffix[k] == pre[k]);
        assert(suffix[k] == code[pos + k]);
    }
    assert forall|k: int|
        0 <= k < rest.len() implies code.subrange(pos + pre.len(), code.len() as int)[k]
        == rest[k] by {
        assert(suffix[pre.len() + k] == rest[k]);
        assert(suffix[pre.len() + k] == code[pos + pre.len() + k]);
    }
    assert(code.subrange(pos + pre.len(), code.len() as int) =~= rest);
}

/// The generalized induction: where the code from offset `pos` on is the
/// generated image of the postfix tokens from position `i` on, running it
/// computes the postfix evaluation, whatever stack both start from.
proof fn lemma_run_gen(pf: Seq<Tok>, i: int, code: Seq<u8>, pos: int, st: Seq<i32>)
    requires
        0 <= i <= pf.len(),
        0 <= pos <= code.len(),
        spec_gen_from(pf, i) == Ok::<Seq<u8>, crate::JitError>(code.subrange(pos, code.len() as int)),
    ensures
        spec_run(code, pos, st) == spec_eval_from(pf, i, st),
    decreases pf.len() - i,
{
    let suffix = code.subrange(pos, code.len() as int);
    if i >= pf.len() {
        assert(suffix == trailer());
        assert(trailer() =~= trailer() + Seq::<u8>::empty());
        lemma_tail(code, pos, trailer(), Seq::empty());
        assert(trailer().len() == 2);
        assert(code.len() - pos == 2);
        assert(code[pos] == trailer()[0] && code[pos + 1] == trailer()[1]);
        assert(code[pos] == 0x58 && code[pos + 1] == 0xc3);
    } else {
        match pf[i] {
            Tok::Num(d) => {
                let v = crate::codegen::spec_parse_i32(d)->Some_0;
                let rest = spec_gen_from(pf, i + 1)->Ok_0;
                let pre = seq![0x68u8] + le_imm(v);
                lemma_parse_in_range(d);
                lemma_le_round_trip(v);
                assert(le_imm(v).len() == 4);
                assert(suffix == pre + rest) by {
                    assert(seq![0x68u8] + le_imm(v) + rest =~= pre + rest);
                }
                lemma_tail(code, pos, pre, rest);
                assert(pre[0] == 0x68);
                assert(pre[1] == le_imm(v)[0]);
                assert(pre[2] == le_imm(v)[1]);
                assert(pre[3] == le_imm(v)[2]);
                assert(pre[4] == le_imm(v)[3]);
                assert(code[pos] == 0x68);
                assert(le_val(code[pos + 1], code[pos + 2], code[pos + 3], code[pos + 4])
                    == v as i32);
                lemma_run_gen(pf, i + 1, code, pos + 5, st.push(v as i32));
            },
            Tok::Op(o) => {
                let rest = spec_gen_from(pf, i + 1)->Ok_0;
                assert(suffix == op_group(o) + rest);
                match o {
                    Oper::Add | Oper::Sub | Oper::Mul => {
                        assert(op_group(o).len() == 5);
                        lemma_tail(code, pos, op_group(o), rest);
                        assert(code[pos] == 0x5a && code[pos + 1] == 0x58 && code[pos + 4] == 0x50);
                        assert(code[pos + 2] == op_group(o)[2] && code[pos + 3] == op_group(o)[3]);
                        if st.len() >= 2 {
                            match spec_apply(o, st[st.len() - 2], st.last()) {
                                Some(v) => {
                                    lemma_run_gen(
                                        pf,
                                        i + 1,
                                        code,
                                        pos + 5,
                                        st.drop_last().drop_last().push(v),
                                    );
                                },
                                None => {},
                            }
                        }
                    },
                    Oper::Div => {
                        assert(op_group(o).len() == 6);
                        lemma_tail(code, pos, op_group(o), rest);
                        assert(code[pos] == 0x59 && code[pos + 1] == 0x58 && code[pos + 2] == 0x99
                            && code[pos + 3] == 0xf7 && code[pos + 4] == 0xf9 && code[pos + 5]
                            == 0x50);
                        if st.len() >= 2 {
                            match spec_apply(o, st[st.len() - 2], st.last()) {
                                Some(v) => {
                                    lemma_run_gen(
                                        pf,
                                        i + 1,
                                        code,
                                        pos + 6,
                                        st.drop_last().drop_last().push(v),
                                    );
                                },
                                None => {},
                            }
                        }
                    },
                }
            },
            _ => {},
        }
    }
}

/// A parsed operand lies within the signed 32-bit range.
proof fn lemma_parse_in_range(d: Seq<char>)
    requires
        crate::codegen::spec_parse_i32(d) is Some,
    ensures
        i32::MIN <= crate::codegen::spec_parse_i32(d)->Some_0 <= i32::MAX,
{
    if d.len() > 0 && d[0] == '-' {
        crate::codegen::lemma_digits_val_nonneg(d.subrange(1, d.len() as int));
    } else {
        crate::codegen::lemma_digits_val_nonneg(d);
    }
}

/// The generated code is faithful: running the image the generator
/// produced for a postfix sequence computes exactly the reference
/// evaluation of that sequence.
pub proof fn lemma_generated_code_faithful(pf: Seq<Tok>)
    requires
        spec_generate(pf) is Ok,
    ensures
        spec_run_image(spec_generate(pf)->Ok_0) == spec_eval(pf),
{
    let code = spec_generate(pf)->Ok_0;
    assert(code.subrange(0, code.len() as int) =~= code);
    lemma_run_gen(pf, 0, code, 0, Seq::empty());
}

/// Run a code image in the reference model, from an empty operand stack.
/// On an image the generator produced, the result is the reference
/// evaluation of the postfix sequence the image encodes (see
/// `lemma_generated_code_faithful`).
pub fn run_code(code: &Vec<u8>) -> (r: Option<i32>)
    ensures
        r == spec_run_image(code@),
{
    let n = code.len();
    let mut st: Vec<i32> = Vec::new();
    let mut i: usize = 0;
    loop
        invariant
            n == code@.len(),
            i <= n,
            spec_run_image(code@) == spec_run(code@, i as int, st@),
        decreases n - i,
    {
        if n - i < 2 {
            return None;
        }
        let b0 = code[i];
        if b0 == 0x68 {
            if n - i < 5 {
                return None;
            }
            let v0 = code[i + 1] as u32;
            let v1 = code[i + 2] as u32;
            let v2 = code[i + 3] as u32;
            let v3 = code[i + 4] as u32;
            let u: u32 = v0 + 256 * v1 + 65536 * v2 + 16777216 * v3;
            let v: i32 = if u >= 0x8000_0000 {
                ((u as i64) - 0x1_0000_0000i64) as i32
            } else {
                u as i32
            };
            proof {
                assert(v == le_val(code@[i as int + 1], code@[i as int + 2], code@[i as int + 3],
                    code@[i as int + 4]));
            }
            st.push(v);
            i = i + 5;
        } else if b0 == 0x58 {
            if code[i + 1] == 0xc3 && n - i == 2 {
                if st.len() == 1 {
                    return Some(st[0]);
                }
                return None;
            }
            return None;
        } else if b0 == 0x5a {
            if !(n - i >= 5 && code[i + 1] == 0x58 && code[i + 4] == 0x50) {
                return None;
            }
            let b2 = code[i + 2];
            let b3 = code[i + 3];
            let o = if b2 == 0x01 && b3 == 0xd0 {
                Oper::Add
            } else if b2 == 0x29 && b3 == 0xd0 {
                Oper::Sub
            } else if b2 == 0xf7 && b3 == 0xea {
                Oper::Mul
            } else {
                return None;
            };
            if st.len() < 2 {
                return None;
            }
            let b = match st.pop() {
                Some(x) => x,
                None => {
                    proof {
                        assert(false);
                    }
                    0
                },
            };
            let a = match st.pop() {
                Some(x) => x,
                None => {
                    proof {
                        assert(false);
                    }
                    0
                },
            };
            let v = match crate::eval::apply_op(o, a, b) {
                Some(v) => v,
                None => {
                    return None;
                },
            };
            st.push(v);
            i = i + 5;
        } else if b0 == 0x59 {
            if !(n - i >= 6 && code[i + 1] == 0x58 && code[i + 2] == 0x99 && code[i + 3] == 0xf7
                && code[i + 4] == 0xf9 && code[i + 5] == 0x50) {
                return None;
            }
            if st.len() < 2 {
                return None;
            }
            let b = match st.pop() {
                Some(x) => x,
                None => {
                    proof {
                        assert(false);
                    }
                    0
                },
            };
            let a = match st.pop() {
                Some(x) => x,
                None => {
                    proof {
                        assert(false);
                    }
                    0
                },
            };
            let v = match crate::eval::apply_op(Oper::Div, a, b) {
                Some(v) => v,
                None => {
                    return None;
                },
            };
            st.push(v);
            i = i + 6;
        } else {
            return None;
        }
    }
}

} // verus!
