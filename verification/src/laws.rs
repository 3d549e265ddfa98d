//! Properties of the pipeline as a whole: the translator's output obeys
//! the stack discipline the generated code relies on, and compilation is a
//! function of the expression text alone.

use vstd::prelude::*;

use crate::host::spec_compile;
use crate::tokens::{Tok, spec_prec, spec_prec_op};
use crate::translate::{spec_postfix, spec_shunt, wf_from, wf_tokens};

verus! {

/// Net stack effect of a postfix sequence: each operand pushes one value,
/// each operator pops two and pushes one.
pub open spec fn balance(pf: Seq<Tok>) -> int
    decreases pf.len(),
{
    if pf.len() == 0 {
        0
    } else {
        balance(pf.drop_last()) + (match pf.last() {
            Tok::Num(_) => 1int,
            Tok::Op(_) => -1int,
            _ => 0int,
        })
    }
}

/// A postfix sequence whose left-to-right evaluation cannot underflow the
/// operand stack: only operands and operators appear, every operator finds
/// at least two values on the stack, and exactly one value remains.
pub open spec fn stack_safe(pf: Seq<Tok>) -> bool {
    &&& forall|k: int| 0 <= k < pf.len() ==> !(#[trigger] pf[k] is Open) && !(pf[k] is Close)
    &&& forall|k: int|
        0 <= k < pf.len() && (#[trigger] pf[k]) is Op ==> balance(pf.subrange(0, k)) >= 2
    &&& balance(pf) == 1
}

/// Number of pending operators on the side-stack.
pub open spec fn op_count(st: Seq<Tok>) -> int
    decreases st.len(),
{
    if st.len() == 0 {
        0
    } else {
        op_count(st.drop_last()) + (if st.last() is Op {
            1int
        } else {
            0int
        })
    }
}

/// Number of open parentheses on the side-stack.
pub open spec fn open_count(st: Seq<Tok>) -> int
    decreases st.len(),
{
    if st.len() == 0 {
        0
    } else {
        open_count(st.drop_last()) + (if st.last() is Open {
            1int
        } else {
            0int
        })
    }
}

proof fn lemma_open_count_nonneg(st: Seq<Tok>)
    ensures
        open_count(st) >= 0,
    decreases st.len(),
{
    if st.len() > 0 {
        lemma_open_count_nonneg(st.drop_last());
    }
}

proof fn lemma_op_count_nonneg(st: Seq<Tok>)
    ensures
        op_count(st) >= 0,
    decreases st.len(),
{
    if st.len() > 0 {
        lemma_op_count_nonneg(st.drop_last());
    }
}

/// A side-stack of operators and open parentheses with no open
/// parenthesis left holds operators only.
proof fn lemma_all_ops(st: Seq<Tok>)
    requires
        forall|k: int| 0 <= k < st.len() ==> ((#[trigger] st[k]) is Op || st[k] is Open),
        open_count(st) == 0,
    ensures
        forall|k: int| 0 <= k < st.len() ==> (#[trigger] st[k]) is Op,
        op_count(st) == st.len(),
    decreases st.len(),
{
    if st.len() > 0 {
        lemma_open_count_nonneg(st.drop_last());
        assert(!(st.last() is Open));
        assert(forall|k: int|
            0 <= k < st.drop_last().len() ==> ((#[trigger] st.drop_last()[k]) is Op
                || st.drop_last()[k] is Open));
        lemma_all_ops(st.drop_last());
        assert(forall|k: int| 0 <= k < st.len() - 1 ==> (#[trigger] st[k]) == st.drop_last()[k]);
    }
}

/// Prefixes below the pushed element are unchanged by a push.
proof fn lemma_push_prefixes(s: Seq<Tok>, x: Tok)
    ensures
        forall|k: int|
            0 <= k <= s.len() ==> #[trigger] s.push(x).subrange(0, k) == s.subrange(0, k),
{
    assert forall|k: int|
        0 <= k <= s.len() implies #[trigger] s.push(x).subrange(0, k) == s.subrange(0, k) by {
        assert(s.push(x).subrange(0, k) =~= s.subrange(0, k));
    }
}

/// The balance after a push follows from the balance before it.
proof fn lemma_balance_push(s: Seq<Tok>, x: Tok)
    ensures
        balance(s.push(x)) == balance(s) + (match x {
            Tok::Num(_) => 1int,
            Tok::Op(_) => -1int,
            _ => 0int,
        }),
{
    assert(s.push(x).drop_last() =~= s);
}

/// Flushing a side-stack of pending operators, top first, onto a safe
/// output whose balance covers them yields a stack-safe sequence.
proof fn lemma_drain(st: Seq<Tok>, out: Seq<Tok>)
    requires
        forall|k: int| 0 <= k < st.len() ==> (#[trigger] st[k]) is Op,
        forall|k: int| 0 <= k < out.len() ==> !(#[trigger] out[k] is Open) && !(out[k] is Close),
        forall|k: int|
            0 <= k < out.len() && (#[trigger] out[k]) is Op ==> balance(out.subrange(0, k)) >= 2,
        balance(out) == st.len() + 1,
    ensures
        stack_safe(out + st.reverse()),
    decreases st.len(),
{
    if st.len() == 0 {
        assert(out + st.reverse() =~= out);
    } else {
        let out2 = out.push(st.last());
        assert(out2 + st.drop_last().reverse() =~= out + st.reverse());
        lemma_push_prefixes(out, st.last());
        lemma_balance_push(out, st.last());
        assert(out2.subrange(0, out.len() as int) =~= out);
        assert(forall|k: int| 0 <= k < out.len() ==> #[trigger] out2[k] == out[k]);
        lemma_drain(st.drop_last(), out2);
    }
}

/// The generalized induction behind the translator's stack discipline.
/// The hypotheses tie the three moving parts together: the remaining input
/// is well formed for the current state, the side-stack holds exactly
/// `depth` open parentheses and otherwise operators, the output so far is
/// safe, and its balance counts one value for every pending operator plus
/// the operand currently completed, if any.
proof fn lemma_shunt_safe(ts: Seq<Tok>, i: int, st: Seq<Tok>, out: Seq<Tok>, expect_val: bool, depth: int)
    requires
        0 <= i <= ts.len(),
        wf_from(ts, i, expect_val, depth),
        forall|k: int| 0 <= k < st.len() ==> ((#[trigger] st[k]) is Op || st[k] is Open),
        open_count(st) == depth,
        forall|k: int| 0 <= k < out.len() ==> !(#[trigger] out[k] is Open) && !(out[k] is Close),
        forall|k: int|
            0 <= k < out.len() && (#[trigger] out[k]) is Op ==> balance(out.subrange(0, k)) >= 2,
        balance(out) == op_count(st) + (if expect_val {
            0int
        } else {
            1int
        }),
    ensures
        stack_safe(spec_shunt(ts, i, st, out)),
    decreases ts.len() - i, st.len(),
{
    lemma_op_count_nonneg(st);
    if i >= ts.len() {
        lemma_all_ops(st);
        lemma_drain(st, out);
    } else {
        match ts[i] {
            Tok::Num(d) => {
                let out2 = out.push(Tok::Num(d));
                lemma_push_prefixes(out, Tok::Num(d));
                lemma_balance_push(out, Tok::Num(d));
                assert(out2.subrange(0, out.len() as int) =~= out);
                assert(forall|k: int| 0 <= k < out.len() ==> #[trigger] out2[k] == out[k]);
                lemma_shunt_safe(ts, i + 1, st, out2, false, depth);
            },
            Tok::Open => {
                let st2 = st.push(Tok::Open);
                assert(st2.drop_last() =~= st);
                assert(forall|k: int| 0 <= k < st.len() ==> #[trigger] st2[k] == st[k]);
                lemma_shunt_safe(ts, i + 1, st2, out, true, depth + 1);
            },
            Tok::Close => {
                if st.len() == 0 {
                    assert(false);
                } else if st.last() is Open {
                    let st2 = st.drop_last();
                    assert(forall|k: int| 0 <= k < st2.len() ==> #[trigger] st2[k] == st[k]);
                    lemma_shunt_safe(ts, i + 1, st2, out, false, depth - 1);
                } else {
                    assert(st.last() is Op);
                    let st2 = st.drop_last();
                    let out2 = out.push(st.last());
                    lemma_op_count_nonneg(st2);
                    assert(balance(out) >= 2);
                    lemma_push_prefixes(out, st.last());
                    lemma_balance_push(out, st.last());
                    assert(out2.subrange(0, out.len() as int) =~= out);
                    assert(forall|k: int| 0 <= k < out.len() ==> #[trigger] out2[k] == out[k]);
                    assert(forall|k: int| 0 <= k < st2.len() ==> #[trigger] st2[k] == st[k]);
                    lemma_shunt_safe(ts, i, st2, out2, expect_val, depth);
                }
            },
            Tok::Op(o) => {
                if st.len() > 0 && spec_prec(st.last()) >= spec_prec_op(o) {
                    assert(spec_prec_op(o) >= 1);
                    assert(st.last() is Op);
                    let st2 = st.drop_last();
                    let out2 = out.push(st.last());
                    lemma_op_count_nonneg(st2);
                    assert(balance(out) >= 2);
                    lemma_push_prefixes(out, st.last());
                    lemma_balance_push(out, st.last());
                    assert(out2.subrange(0, out.len() as int) =~= out);
                    assert(forall|k: int| 0 <= k < out.len() ==> #[trigger] out2[k] == out[k]);
                    assert(forall|k: int| 0 <= k < st2.len() ==> #[trigger] st2[k] == st[k]);
                    lemma_shunt_safe(ts, i, st2, out2, expect_val, depth);
                } else {
                    let st2 = st.push(Tok::Op(o));
                    assert(st2.drop_last() =~= st);
                    assert(forall|k: int| 0 <= k < st.len() ==> #[trigger] st2[k] == st[k]);
                    lemma_shunt_safe(ts, i + 1, st2, out, true, depth);
                }
            },
        }
    }
}

/// Any output the translator produces from a well-formed infix token
/// sequence keeps the stack discipline of the generated code: evaluating
/// it left to right, popping two operands per operator and pushing one
/// result, never underflows and leaves exactly the one final value.
pub proof fn lemma_translation_stack_safe(ts: Seq<Tok>)
    requires
        wf_tokens(ts),
    ensures
        stack_safe(spec_postfix(ts)),
{
    lemma_shunt_safe(ts, 0, Seq::empty(), Seq::empty(), true, 0);
}

/// Generation over a postfix sequence free of grouping marks can fail
/// only on an operand outside the 32-bit range.
proof fn lemma_gen_no_unsupported(pf: Seq<Tok>, i: int)
    requires
        0 <= i <= pf.len(),
        forall|k: int| 0 <= k < pf.len() ==> !(#[trigger] pf[k] is Open) && !(pf[k] is Close),
    ensures
        crate::codegen::spec_gen_from(pf, i) != Err::<Seq<u8>, crate::JitError>(
            crate::JitError::UnsupportedOperator,
        ),
    decreases pf.len() - i,
{
    if i < pf.len() {
        lemma_gen_no_unsupported(pf, i + 1);
    }
}

/// A well-formed expression hands the generator no grouping mark, so the
/// only failure generation can still report for it is an operand outside
/// the 32-bit range; an unsupported token always signals a postfix
/// sequence the translator did not produce from well-formed input.
pub proof fn lemma_translation_generates(ts: Seq<Tok>)
    requires
        wf_tokens(ts),
    ensures
        crate::codegen::spec_generate(spec_postfix(ts)) != Err::<Seq<u8>, crate::JitError>(
            crate::JitError::UnsupportedOperator,
        ),
{
    lemma_translation_stack_safe(ts);
    lemma_gen_no_unsupported(spec_postfix(ts), 0);
}

/// Compilation is a function of the expression text alone: any two code
/// images obtained from the same text are identical, so two
/// compile-and-execute cycles with fresh mappings compute the same value
/// both times.
pub proof fn lemma_compile_repeatable(s: Seq<char>, c1: Seq<u8>, c2: Seq<u8>)
    requires
        spec_compile(s) == Ok::<Seq<u8>, crate::JitError>(c1),
        spec_compile(s) == Ok::<Seq<u8>, crate::JitError>(c2),
    ensures
        c1 == c2,
        crate::machine::spec_run_image(c1) == crate::machine::spec_run_image(c2),
{
}

/// The translator's state after consuming the input from position `i` on:
/// the side-stack and the output, before the final flush.
pub open spec fn shunt_state(ts: Seq<Tok>, i: int, st: Seq<Tok>, out: Seq<Tok>) -> (Seq<Tok>, Seq<
    Tok,
>)
    decreases ts.len() - i, st.len(),
{
    if i < 0 || i >= ts.len() {
        (st, out)
    } else {
        match ts[i] {
            Tok::Num(d) => shunt_state(ts, i + 1, st, out.push(Tok::Num(d))),
            Tok::Open => shunt_state(ts, i + 1, st.push(Tok::Open), out),
            Tok::Close => if st.len() == 0 {
                shunt_state(ts, i + 1, st, out)
            } else if st.last() is Open {
                shunt_state(ts, i + 1, st.drop_last(), out)
            } else {
                shunt_state(ts, i, st.drop_last(), out.push(st.last()))
            },
            Tok::Op(o) => if st.len() > 0 && spec_prec(st.last()) >= spec_prec_op(o) {
                shunt_state(ts, i, st.drop_last(), out.push(st.last()))
            } else {
                shunt_state(ts, i + 1, st.push(Tok::Op(o)), out)
            },
        }
    }
}

/// The translation is the state's output with its stack flushed, top
/// first.
proof fn lemma_shunt_flush(ts: Seq<Tok>, i: int, st: Seq<Tok>, out: Seq<Tok>)
    ensures
        spec_shunt(ts, i, st, out) == shunt_state(ts, i, st, out).1 + shunt_state(
            ts,
            i,
            st,
            out,
        ).0.reverse(),
    decreases ts.len() - i, st.len(),
{
    if i < 0 || i >= ts.len() {
    } else {
        match ts[i] {
            Tok::Num(d) => lemma_shunt_flush(ts, i + 1, st, out.push(Tok::Num(d))),
            Tok::Open => lemma_shunt_flush(ts, i + 1, st.push(Tok::Open), out),
            Tok::Close => if st.len() == 0 {
                lemma_shunt_flush(ts, i + 1, st, out)
            } else if st.last() is Open {
                lemma_shunt_flush(ts, i + 1, st.drop_last(), out)
            } else {
                lemma_shunt_flush(ts, i, st.drop_last(), out.push(st.last()))
            },
            Tok::Op(o) => if st.len() > 0 && spec_prec(st.last()) >= spec_prec_op(o) {
                lemma_shunt_flush(ts, i, st.drop_last(), out.push(st.last()))
            } else {
                lemma_shunt_flush(ts, i + 1, st.push(Tok::Op(o)), out)
            },
        }
    }
}

/// A well-formed remainder stays well formed when the whole input is
/// wrapped in one more pair of parentheses.
proof fn lemma_wf_wrap(ts: Seq<Tok>, k: int, ev: bool, depth: int)
    requires
        0 <= k <= ts.len(),
        0 <= depth,
        wf_from(ts, k, ev, depth),
    ensures
        wf_from(seq![Tok::Open] + ts + seq![Tok::Close], 1 + k, ev, depth + 1),
    decreases ts.len() - k,
{
    let w = seq![Tok::Open] + ts + seq![Tok::Close];
    assert(w.len() == ts.len() + 2);
    if k == ts.len() {
        assert(w[1 + k] == Tok::Close);
        assert(!ev && depth == 0);
        assert(2 + k >= w.len());
        assert(wf_from(w, 2 + k, false, depth));
    } else {
        assert(w[1 + k] == ts[k]);
        match ts[k] {
            Tok::Num(_) => lemma_wf_wrap(ts, k + 1, false, depth),
            Tok::Open => lemma_wf_wrap(ts, k + 1, true, depth + 1),
            Tok::Close => lemma_wf_wrap(ts, k + 1, false, depth - 1),
            Tok::Op(_) => lemma_wf_wrap(ts, k + 1, true, depth),
        }
    }
}

/// Processing well-formed input leaves only pending operators on the
/// side-stack: every open parenthesis has been matched and discarded.
proof fn lemma_state_stack(ts: Seq<Tok>, i: int, st: Seq<Tok>, out: Seq<Tok>, ev: bool, depth: int)
    requires
        0 <= i <= ts.len(),
        wf_from(ts, i, ev, depth),
        forall|k: int| 0 <= k < st.len() ==> ((#[trigger] st[k]) is Op || st[k] is Open),
        open_count(st) == depth,
    ensures
        forall|k: int|
            0 <= k < shunt_state(ts, i, st, out).0.len() ==> (#[trigger] shunt_state(
                ts,
                i,
                st,
                out,
            ).0[k]) is Op,
    decreases ts.len() - i, st.len(),
{
    if i >= ts.len() {
        lemma_all_ops(st);
    } else {
        match ts[i] {
            Tok::Num(_) => {
                lemma_state_stack(ts, i + 1, st, out.push(ts[i]), false, depth);
            },
            Tok::Open => {
                let st2 = st.push(Tok::Open);
                assert(st2.drop_last() =~= st);
                assert(forall|k: int| 0 <= k < st.len() ==> #[trigger] st2[k] == st[k]);
                lemma_state_stack(ts, i + 1, st2, out, true, depth + 1);
            },
            Tok::Close => {
                if st.len() == 0 {
                    lemma_open_count_nonneg(st);
                    assert(false);
                } else if st.last() is Open {
                    let st2 = st.drop_last();
                    assert(forall|k: int| 0 <= k < st2.len() ==> #[trigger] st2[k] == st[k]);
                    lemma_state_stack(ts, i + 1, st2, out, false, depth - 1);
                } else {
                    let st2 = st.drop_last();
                    assert(forall|k: int| 0 <= k < st2.len() ==> #[trigger] st2[k] == st[k]);
                    lemma_state_stack(ts, i, st2, out.push(st.last()), ev, depth);
                }
            },
            Tok::Op(o) => {
                if st.len() > 0 && spec_prec(st.last()) >= spec_prec_op(o) {
                    let st2 = st.drop_last();
                    assert(forall|k: int| 0 <= k < st2.len() ==> #[trigger] st2[k] == st[k]);
                    lemma_state_stack(ts, i, st2, out.push(st.last()), ev, depth);
                } else {
                    let st2 = st.push(Tok::Op(o));
                    assert(st2.drop_last() =~= st);
                    assert(forall|k: int| 0 <= k < st.len() ==> #[trigger] st2[k] == st[k]);
                    lemma_state_stack(ts, i + 1, st2, out, true, depth);
                }
            },
        }
    }
}

/// An open parenthesis below the side-stack of a well-formed remainder is
/// never touched: the run proceeds exactly as it would without it, until
/// the remainder is consumed.
proof fn lemma_frame(ts: Seq<Tok>, i: int, st: Seq<Tok>, out: Seq<Tok>, ev: bool, depth: int)
    requires
        0 <= i <= ts.len(),
        wf_from(ts, i, ev, depth),
        forall|k: int| 0 <= k < st.len() ==> ((#[trigger] st[k]) is Op || st[k] is Open),
        open_count(st) == depth,
    ensures
        shunt_state(seq![Tok::Open] + ts + seq![Tok::Close], 1 + i, seq![Tok::Open] + st, out)
            == shunt_state(
            seq![Tok::Open] + ts + seq![Tok::Close],
            1 + ts.len() as int,
            seq![Tok::Open] + shunt_state(ts, i, st, out).0,
            shunt_state(ts, i, st, out).1,
        ),
    decreases ts.len() - i, st.len(),
{
    let w = seq![Tok::Open] + ts + seq![Tok::Close];
    let b = seq![Tok::Open] + st;
    assert(w.len() == ts.len() + 2);
    if i >= ts.len() {
    } else {
        assert(w[1 + i] == ts[i]);
        assert(b.len() == st.len() + 1);
        if st.len() > 0 {
            assert(b.last() == st.last());
        } else {
            assert(b.last() == Tok::Open);
        }
        match ts[i] {
            Tok::Num(_) => {
                lemma_frame(ts, i + 1, st, out.push(ts[i]), false, depth);
            },
            Tok::Open => {
                let st2 = st.push(Tok::Open);
                assert(b.push(Tok::Open) =~= seq![Tok::Open] + st2);
                assert(st2.drop_last() =~= st);
                assert(forall|k: int| 0 <= k < st.len() ==> #[trigger] st2[k] == st[k]);
                lemma_frame(ts, i + 1, st2, out, true, depth + 1);
            },
            Tok::Close => {
                if st.len() == 0 {
                    lemma_open_count_nonneg(st);
                    assert(false);
                } else if st.last() is Open {
                    let st2 = st.drop_last();
                    assert(b.drop_last() =~= seq![Tok::Open] + st2);
                    assert(forall|k: int| 0 <= k < st2.len() ==> #[trigger] st2[k] == st[k]);
                    lemma_frame(ts, i + 1, st2, out, false, depth - 1);
                } else {
                    let st2 = st.drop_last();
                    assert(b.drop_last() =~= seq![Tok::Open] + st2);
                    assert(forall|k: int| 0 <= k < st2.len() ==> #[trigger] st2[k] == st[k]);
                    lemma_frame(ts, i, st2, out.push(st.last()), ev, depth);
                }
            },
            Tok::Op(o) => {
                assert(spec_prec_op(o) >= 1);
                if st.len() > 0 && spec_prec(st.last()) >= spec_prec_op(o) {
                    let st2 = st.drop_last();
                    assert(b.drop_last() =~= seq![Tok::Open] + st2);
                    assert(forall|k: int| 0 <= k < st2.len() ==> #[trigger] st2[k] == st[k]);
                    lemma_frame(ts, i, st2, out.push(st.last()), ev, depth);
                } else {
                    assert(!(b.len() > 0 && spec_prec(b.last()) >= spec_prec_op(o)));
                    let st2 = st.push(Tok::Op(o));
                    assert(b.push(Tok::Op(o)) =~= seq![Tok::Open] + st2);
                    assert(st2.drop_last() =~= st);
                    assert(forall|k: int| 0 <= k < st.len() ==> #[trigger] st2[k] == st[k]);
                    lemma_frame(ts, i + 1, st2, out, true, depth);
                }
            },
        }
    }
}

/// The closing parenthesis flushes the pending operators above its match,
/// top first, discards the match, and ends the wrapped run.
proof fn lemma_close_drain(w: Seq<Tok>, p: int, t2: Seq<Tok>, o2: Seq<Tok>)
    requires
        0 <= p < w.len(),
        p + 1 == w.len(),
        w[p] is Close,
        forall|k: int| 0 <= k < t2.len() ==> (#[trigger] t2[k]) is Op,
    ensures
        shunt_state(w, p, seq![Tok::Open] + t2, o2) == (Seq::<Tok>::empty(), o2 + t2.reverse()),
    decreases t2.len(),
{
    let b = seq![Tok::Open] + t2;
    if t2.len() == 0 {
        assert(b.len() == 1);
        assert(b.last() == Tok::Open);
        assert(b.drop_last() =~= Seq::<Tok>::empty());
        assert(shunt_state(w, p, b, o2) == shunt_state(w, p + 1, b.drop_last(), o2));
        assert(p + 1 >= w.len());
        assert(shunt_state(w, p + 1, b.drop_last(), o2) == (b.drop_last(), o2));
        assert(o2 + t2.reverse() =~= o2);
    } else {
        assert(b.last() == t2.last());
        assert(b.last() is Op);
        assert(b.drop_last() =~= seq![Tok::Open] + t2.drop_last());
        let t3 = t2.drop_last();
        assert(forall|k: int| 0 <= k < t3.len() ==> #[trigger] t3[k] == t2[k]);
        assert(shunt_state(w, p, b, o2) == shunt_state(w, p, b.drop_last(), o2.push(b.last())));
        lemma_close_drain(w, p, t3, o2.push(t2.last()));
        assert(o2.push(t2.last()) + t3.reverse() =~= o2 + t2.reverse());
    }
}

/// Parenthesization of a whole well-formed expression is neutral: the
/// wrapped input is well formed too, and its translation is the very same
/// postfix sequence, so grouping what is already grouped changes nothing
/// of what is computed.
pub proof fn lemma_parenthesization_neutral(ts: Seq<Tok>)
    requires
        wf_tokens(ts),
    ensures
        wf_tokens(seq![Tok::Open] + ts + seq![Tok::Close]),
        spec_postfix(seq![Tok::Open] + ts + seq![Tok::Close]) == spec_postfix(ts),
{
    let w = seq![Tok::Open] + ts + seq![Tok::Close];
    let e = Seq::<Tok>::empty();
    lemma_wf_wrap(ts, 0, true, 0);
    assert(w[0] == Tok::Open);
    assert(wf_tokens(w));
    lemma_frame(ts, 0, e, e, true, 0);
    let t2 = shunt_state(ts, 0, e, e).0;
    let o2 = shunt_state(ts, 0, e, e).1;
    lemma_state_stack(ts, 0, e, e, true, 0);
    lemma_close_drain(w, 1 + ts.len() as int, t2, o2);
    assert(e.push(Tok::Open) =~= seq![Tok::Open] + e);
    assert(shunt_state(w, 0, e, e) == shunt_state(w, 1, seq![Tok::Open] + e, e));
    lemma_shunt_flush(w, 0, e, e);
    lemma_shunt_flush(ts, 0, e, e);
    assert((o2 + t2.reverse()) + e.reverse() =~= o2 + t2.reverse());
}

/// End to end: the image a successful compilation produces computes, in
/// the reference model of the target, exactly the reference evaluation of
/// the expression's postfix form.
pub proof fn lemma_compile_faithful(s: Seq<char>)
    requires
        crate::host::spec_compile(s) is Ok,
    ensures
        crate::translate::spec_translate(s) is Ok,
        crate::machine::spec_run_image(crate::host::spec_compile(s)->Ok_0)
            == crate::eval::spec_eval(crate::translate::spec_translate(s)->Ok_0),
{
    crate::machine::lemma_generated_code_faithful(crate::translate::spec_translate(s)->Ok_0);
}

} // verus!
