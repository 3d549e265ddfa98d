//! Infix-to-postfix translation: tokenization, well-formedness of the infix
//! token sequence, and the shunting-yard rearrangement.

use vstd::prelude::*;

use crate::JitError;
use crate::tokens::{Oper, Token, Tok, model, models, lemma_models_push, spec_prec, spec_prec_op,
    prec_op};

verus! {

/// A separator character: blank space between tokens.
pub open spec fn is_space(c: char) -> bool {
    c == ' ' || c == '\t' || c == '\n' || c == '\r'
}

/// A decimal digit.
pub open spec fn is_digit(c: char) -> bool {
    48 <= c as u32 && c as u32 <= 57
}

/// Length of the run of digits starting at position `i`.
pub open spec fn digit_run_len(s: Seq<char>, i: int) -> nat
    decreases s.len() - i,
{
    if 0 <= i && i < s.len() && is_digit(s[i]) {
        1 + digit_run_len(s, i + 1)
    } else {
        0
    }
}

proof fn lemma_digit_run_len(s: Seq<char>, i: int)
    requires
        0 <= i <= s.len(),
    ensures
        digit_run_len(s, i) <= s.len() - i,
    decreases s.len() - i,
{
    if i < s.len() && is_digit(s[i]) {
        lemma_digit_run_len(s, i + 1);
    }
}

/// Prepend one token to a tokenization outcome.
pub open spec fn cons_tok(t: Tok, rest: Option<Seq<Tok>>) -> Option<Seq<Tok>> {
    match rest {
        Some(r) => Some(seq![t] + r),
        None => None,
    }
}

/// The token sequence denoted by the text from position `i` on, or `None`
/// if a character is neither a digit, an operator, a parenthesis, nor a
/// separator.  `unary` records whether an operand may start here (at the
/// start of the input, after an operator, or after an open parenthesis), so
/// that a minus sign directly before a digit run is read as the sign of the
/// literal rather than as subtraction.
pub open spec fn spec_tokens(s: Seq<char>, i: int, unary: bool) -> Option<Seq<Tok>>
    decreases s.len() - i,
        via spec_tokens_dec
{
    if i < 0 || i >= s.len() {
        Some(Seq::empty())
    } else {
        let c = s[i];
        if is_space(c) {
            spec_tokens(s, i + 1, unary)
        } else if c == '(' {
            cons_tok(Tok::Open, spec_tokens(s, i + 1, true))
        } else if c == ')' {
            cons_tok(Tok::Close, spec_tokens(s, i + 1, false))
        } else if is_digit(c) {
            let n = digit_run_len(s, i);
            cons_tok(Tok::Num(s.subrange(i, i + n)), spec_tokens(s, i + n, false))
        } else if c == '-' && unary && i + 1 < s.len() && is_digit(s[i + 1]) {
            let n = digit_run_len(s, i + 1);
            cons_tok(Tok::Num(s.subrange(i, i + 1 + n)), spec_tokens(s, i + 1 + n, false))
        } else if c == '+' {
            cons_tok(Tok::Op(Oper::Add), spec_tokens(s, i + 1, true))
        } else if c == '-' {
            cons_tok(Tok::Op(Oper::Sub), spec_tokens(s, i + 1, true))
        } else if c == '*' {
            cons_tok(Tok::Op(Oper::Mul), spec_tokens(s, i + 1, true))
        } else if c == '/' {
            cons_tok(Tok::Op(Oper::Div), spec_tokens(s, i + 1, true))
        } else {
            None
        }
    }
}

#[via_fn]
proof fn spec_tokens_dec(s: Seq<char>, i: int, unary: bool) {
    if 0 <= i && i < s.len() {
        lemma_digit_run_len(s, i);
        lemma_digit_run_len(s, i + 1);
    }
}

/// Prepend an already-produced prefix to a tokenization outcome.
pub open spec fn opt_concat(pre: Seq<Tok>, rest: Option<Seq<Tok>>) -> Option<Seq<Tok>> {
    match rest {
        Some(r) => Some(pre + r),
        None => None,
    }
}

/// Whether the character at position `j` is a digit.
fn digit_at(expr: &str, j: usize) -> (r: bool)
    requires
        j < expr@.len(),
    ensures
        r == is_digit(expr@[j as int]),
{
    let v: u32 = expr.get_char(j) as u32;
    48 <= v && v <= 57
}

/// Split the input text into tokens.  Fails exactly when a character is
/// neither a digit, an operator, a parenthesis, nor a separator.
pub fn tokenize(expr: &str) -> (r: Result<Vec<Token>, JitError>)
    ensures
        match r {
            Ok(v) => spec_tokens(expr@, 0, true) == Some(models(v@)),
            Err(e) => e == JitError::MalformedExpression && spec_tokens(expr@, 0, true) is None,
        },
{
    let n = expr.unicode_len();
    let mut out: Vec<Token> = Vec::new();
    let mut i: usize = 0;
    let mut unary: bool = true;
    while i < n
        invariant
            n == expr@.len(),
            i <= n,
            spec_tokens(expr@, 0, true) == opt_concat(
                models(out@),
                spec_tokens(expr@, i as int, unary),
            ),
        decreases n - i,
    {
        let ghost prev_out = out@;
        let ghost prev_i = i as int;
        let c = expr.get_char(i);
        if c == ' ' || c == '\t' || c == '\n' || c == '\r' {
            i = i + 1;
        } else if c == '(' {
            out.push(Token::Open);
            i = i + 1;
            unary = true;
            proof {
                lemma_models_push(prev_out, Token::Open);
                lemma_step(expr@, prev_out, Tok::Open, spec_tokens(expr@, i as int, unary));
            }
        } else if c == ')' {
            out.push(Token::Close);
            i = i + 1;
            unary = false;
            proof {
                lemma_models_push(prev_out, Token::Close);
                lemma_step(expr@, prev_out, Tok::Close, spec_tokens(expr@, i as int, unary));
            }
        } else if digit_at(expr, i) {
            let mut d: Vec<char> = Vec::new();
            let mut j: usize = i;
            while j < n && digit_at(expr, j)
                invariant
                    n == expr@.len(),
                    i <= j <= n,
                    d@ == expr@.subrange(i as int, j as int),
                    digit_run_len(expr@, i as int) == (j - i) + digit_run_len(expr@, j as int),
                decreases n - j,
            {
                let c2 = expr.get_char(j);
                d.push(c2);
                proof {
                    assert(expr@.subrange(i as int, j + 1) =~= expr@.subrange(i as int, j as int)
                        .push(expr@[j as int]));
                }
                j = j + 1;
            }
            proof {
                assert(digit_run_len(expr@, j as int) == 0);
                assert(d@ == expr@.subrange(
                    prev_i,
                    prev_i + digit_run_len(expr@, prev_i),
                ));
            }
            let ghost tok = Tok::Num(d@);
            out.push(Token::Num(d));
            i = j;
            unary = false;
            proof {
                lemma_models_push(prev_out, Token::Num(d));
                lemma_step(expr@, prev_out, tok, spec_tokens(expr@, i as int, unary));
            }
        } else if c == '-' && unary && i + 1 < n && digit_at(expr, i + 1) {
            let mut d: Vec<char> = Vec::new();
            d.push(c);
            let mut j: usize = i + 1;
            proof {
                assert(d@ =~= expr@.subrange(i as int, i + 1));
            }
            while j < n && digit_at(expr, j)
                invariant
                    n == expr@.len(),
                    i + 1 <= j <= n,
                    d@ == expr@.subrange(i as int, j as int),
                    digit_run_len(expr@, i + 1) == (j - i - 1) + digit_run_len(expr@, j as int),
                decreases n - j,
            {
                let c2 = expr.get_char(j);
                d.push(c2);
                proof {
                    assert(expr@.subrange(i as int, j + 1) =~= expr@.subrange(i as int, j as int)
                        .push(expr@[j as int]));
                }
                j = j + 1;
            }
            proof {
                assert(digit_run_len(expr@, j as int) == 0);
                assert(d@ == expr@.subrange(
                    prev_i,
                    prev_i + 1 + digit_run_len(expr@, prev_i + 1),
                ));
            }
            let ghost tok = Tok::Num(d@);
            out.push(Token::Num(d));
            i = j;
            unary = false;
            proof {
                lemma_models_push(prev_out, Token::Num(d));
                lemma_step(expr@, prev_out, tok, spec_tokens(expr@, i as int, unary));
            }
        } else if c == '+' || c == '-' || c == '*' || c == '/' {
            let o = if c == '+' {
                Oper::Add
            } else if c == '-' {
                Oper::Sub
            } else if c == '*' {
                Oper::Mul
            } else {
                Oper::Div
            };
            out.push(Token::Op(o));
            i = i + 1;
            unary = true;
            proof {
                lemma_models_push(prev_out, Token::Op(o));
                lemma_step(expr@, prev_out, Tok::Op(o), spec_tokens(expr@, i as int, unary));
            }
        } else {
            proof {
                assert(spec_tokens(expr@, i as int, unary) is None);
            }
            return Err(JitError::MalformedExpression);
        }
    }
    proof {
        assert(spec_tokens(expr@, i as int, unary) == Some(Seq::<Tok>::empty()));
        assert(models(out@) + Seq::<Tok>::empty() =~= models(out@));
    }
    Ok(out)
}

/// Shifting one produced token from the pending tokenization into the
/// prefix keeps the combined outcome.
proof fn lemma_step(s: Seq<char>, pre: Seq<Token>, t: Tok, rest: Option<Seq<Tok>>)
    ensures
        opt_concat(models(pre), cons_tok(t, rest)) == opt_concat(models(pre).push(t), rest),
{
    match rest {
        Some(r) => {
            assert(models(pre) + (seq![t] + r) =~= models(pre).push(t) + r);
        },
        None => {},
    }
}

/// Whether a token sequence from position `i` on completes a well-formed
/// infix expression, given whether an operand is expected next and how many
/// parentheses are open.
pub open spec fn wf_from(ts: Seq<Tok>, i: int, expect_val: bool, depth: int) -> bool
    decreases ts.len() - i,
{
    if i < 0 {
        false
    } else if i >= ts.len() {
        !expect_val && depth == 0
    } else {
        match ts[i] {
            Tok::Num(_) => expect_val && wf_from(ts, i + 1, false, depth),
            Tok::Open => expect_val && wf_from(ts, i + 1, true, depth + 1),
            Tok::Close => !expect_val && depth > 0 && wf_from(ts, i + 1, false, depth - 1),
            Tok::Op(_) => !expect_val && wf_from(ts, i + 1, true, depth),
        }
    }
}

/// A well-formed infix token sequence: nonempty, operands and operators
/// alternate, and parentheses are balanced.
pub open spec fn wf_tokens(ts: Seq<Tok>) -> bool {
    wf_from(ts, 0, true, 0)
}

/// Decide well-formedness of an infix token sequence.
pub fn check_wf(tokens: &Vec<Token>) -> (r: bool)
    ensures
        r == wf_tokens(models(tokens@)),
{
    let ghost m = models(tokens@);
    let n = tokens.len();
    let mut i: usize = 0;
    let mut expect_val: bool = true;
    let mut depth: usize = 0;
    while i < n
        invariant
            n == tokens@.len(),
            m == models(tokens@),
            m.len() == n,
            i <= n,
            depth <= i,
            wf_tokens(m) == wf_from(m, i as int, expect_val, depth as int),
        decreases n - i,
    {
        proof {
            assert(m[i as int] == model(tokens@[i as int]));
        }
        match &tokens[i] {
            Token::Num(_) => {
                if !expect_val {
                    return false;
                }
                expect_val = false;
            },
            Token::Open => {
                if !expect_val {
                    return false;
                }
                expect_val = true;
                depth = depth + 1;
            },
            Token::Close => {
                if expect_val || depth == 0 {
                    return false;
                }
                expect_val = false;
                depth = depth - 1;
            },
            Token::Op(_) => {
                if expect_val {
                    return false;
                }
                expect_val = true;
            },
        }
        i = i + 1;
    }
    !expect_val && depth == 0
}

/// An entry of the operator side-stack: a pending operator or an open
/// parenthesis waiting for its close.
#[derive(Clone, Copy, Debug)]
pub enum StackSym {
    Op(Oper),
    Open,
}

/// The model of a side-stack entry.
pub open spec fn sym_model(s: StackSym) -> Tok {
    match s {
        StackSym::Op(o) => Tok::Op(o),
        StackSym::Open => Tok::Open,
    }
}

/// The model of the side-stack, bottom first.
pub open spec fn sym_models(ss: Seq<StackSym>) -> Seq<Tok> {
    ss.map_values(|s: StackSym| sym_model(s))
}

/// The shunting-yard rearrangement from position `i` on, with side-stack
/// `st` (bottom first) and the output produced so far.  One token is
/// consumed per step, except that popping a pending operator into the
/// output leaves the position unchanged.  At the end the side-stack is
/// flushed onto the output, top first.
pub open spec fn spec_shunt(ts: Seq<Tok>, i: int, st: Seq<Tok>, out: Seq<Tok>) -> Seq<Tok>
    decreases ts.len() - i, st.len(),
{
    if i < 0 || i >= ts.len() {
        out + st.reverse()
    } else {
        match ts[i] {
            Tok::Num(d) => spec_shunt(ts, i + 1, st, out.push(Tok::Num(d))),
            Tok::Open => spec_shunt(ts, i + 1, st.push(Tok::Open), out),
            Tok::Close => if st.len() == 0 {
                spec_shunt(ts, i + 1, st, out)
            } else if st.last() is Open {
                spec_shunt(ts, i + 1, st.drop_last(), out)
            } else {
                spec_shunt(ts, i, st.drop_last(), out.push(st.last()))
            },
            Tok::Op(o) => if st.len() > 0 && spec_prec(st.last()) >= spec_prec_op(o) {
                spec_shunt(ts, i, st.drop_last(), out.push(st.last()))
            } else {
                spec_shunt(ts, i + 1, st.push(Tok::Op(o)), out)
            },
        }
    }
}

/// The postfix form of a token sequence.
pub open spec fn spec_postfix(ts: Seq<Tok>) -> Seq<Tok> {
    spec_shunt(ts, 0, Seq::empty(), Seq::empty())
}

/// Flushing the topmost stack entry onto the output keeps the final image
/// of output-then-reversed-stack.
proof fn lemma_flush_top(st: Seq<Tok>, out: Seq<Tok>)
    requires
        st.len() > 0,
    ensures
        out.push(st.last()) + st.drop_last().reverse() == out + st.reverse(),
{
    assert(out.push(st.last()) + st.drop_last().reverse() =~= out + st.reverse());
}

/// Copy the characters of an operand.
fn copy_chars(d: &Vec<char>) -> (r: Vec<char>)
    ensures
        r@ == d@,
{
    let mut r: Vec<char> = Vec::new();
    let mut k: usize = 0;
    while k < d.len()
        invariant
            k <= d@.len(),
            r@ == d@.subrange(0, k as int),
        decreases d@.len() - k,
    {
        r.push(d[k]);
        proof {
            assert(d@.subrange(0, k + 1) =~= d@.subrange(0, k as int).push(d@[k as int]));
        }
        k = k + 1;
    }
    proof {
        assert(d@.subrange(0, d@.len() as int) =~= d@);
    }
    r
}

/// Whether the stack top is a pending operator of precedence at least that
/// of `o`.
fn top_blocks(st: &Vec<StackSym>, o: Oper) -> (r: bool)
    requires
        st@.len() > 0,
    ensures
        r == (spec_prec(sym_model(st@.last())) >= spec_prec_op(o)),
{
    match st[st.len() - 1] {
        StackSym::Op(t) => prec_op(t) >= prec_op(o),
        StackSym::Open => false,
    }
}

/// Whether the stack top is a pending operator (not an open parenthesis).
fn top_is_op(st: &Vec<StackSym>) -> (r: bool)
    requires
        st@.len() > 0,
    ensures
        r == (sym_model(st@.last()) is Op),
{
    match st[st.len() - 1] {
        StackSym::Op(_) => true,
        StackSym::Open => false,
    }
}

/// Rearrange an infix token sequence into postfix order by the
/// shunting-yard algorithm.
pub fn shunt(tokens: &Vec<Token>) -> (r: Vec<Token>)
    ensures
        models(r@) == spec_postfix(models(tokens@)),
{
    let ghost m = models(tokens@);
    let n = tokens.len();
    let mut out: Vec<Token> = Vec::new();
    let mut st: Vec<StackSym> = Vec::new();
    let mut i: usize = 0;
    proof {
        assert(sym_models(st@) =~= Seq::<Tok>::empty());
        assert(models(out@) =~= Seq::<Tok>::empty());
    }
    while i < n
        invariant
            n == tokens@.len(),
            m == models(tokens@),
            m.len() == n,
            i <= n,
            spec_postfix(m) == spec_shunt(m, i as int, sym_models(st@), models(out@)),
        decreases n - i,
    {
        proof {
            assert(m[i as int] == model(tokens@[i as int]));
        }
        match &tokens[i] {
            Token::Num(d) => {
                let dd = copy_chars(d);
                let ghost prev_out = out@;
                out.push(Token::Num(dd));
                proof {
                    lemma_models_push(prev_out, Token::Num(dd));
                }
                i = i + 1;
            },
            Token::Open => {
                let ghost prev_st = st@;
                st.push(StackSym::Open);
                proof {
                    assert(sym_models(prev_st.push(StackSym::Open)) =~= sym_models(prev_st).push(
                        Tok::Open,
                    ));
                }
                i = i + 1;
            },
            Token::Close => {
                while st.len() > 0 && top_is_op(&st)
                    invariant
                        n == tokens@.len(),
                        m == models(tokens@),
                        m.len() == n,
                        i < n,
                        m[i as int] is Close,
                        spec_postfix(m) == spec_shunt(m, i as int, sym_models(st@), models(out@)),
                    decreases st@.len(),
                {
                    let ghost prev_st = st@;
                    let ghost prev_out = out@;
                    let sym = st.pop();
                    match sym {
                        Some(StackSym::Op(o)) => {
                            out.push(Token::Op(o));
                            proof {
                                lemma_models_push(prev_out, Token::Op(o));
                                assert(sym_models(st@) =~= sym_models(prev_st).drop_last());
                                assert(sym_models(prev_st).last() == Tok::Op(o));
                            }
                        },
                        _ => {
                            proof {
                                assert(false);
                            }
                        },
                    }
                }
                if st.len() > 0 {
                    let ghost prev_st = st@;
                    let _ = st.pop();
                    proof {
                        assert(sym_models(st@) =~= sym_models(prev_st).drop_last());
                        assert(sym_models(prev_st).last() == Tok::Open);
                    }
                }
                i = i + 1;
            },
            Token::Op(o) => {
                let oc = *o;
                while st.len() > 0 && top_blocks(&st, oc)
                    invariant
                        n == tokens@.len(),
                        m == models(tokens@),
                        m.len() == n,
                        i < n,
                        m[i as int] == Tok::Op(oc),
                        spec_postfix(m) == spec_shunt(m, i as int, sym_models(st@), models(out@)),
                    decreases st@.len(),
                {
                    let ghost prev_st = st@;
                    let ghost prev_out = out@;
                    let sym = st.pop();
                    match sym {
                        Some(StackSym::Op(t)) => {
                            out.push(Token::Op(t));
                            proof {
                                lemma_models_push(prev_out, Token::Op(t));
                                assert(sym_models(st@) =~= sym_models(prev_st).drop_last());
                                assert(sym_models(prev_st).last() == Tok::Op(t));
                            }
                        },
                        _ => {
                            proof {
                                assert(false);
                            }
                        },
                    }
                }
                let ghost prev_st = st@;
                st.push(StackSym::Op(oc));
                proof {
                    assert(sym_models(prev_st.push(StackSym::Op(oc))) =~= sym_models(prev_st).push(
                        Tok::Op(oc),
                    ));
                }
                i = i + 1;
            },
        }
    }
    while st.len() > 0
        invariant
            spec_postfix(m) == models(out@) + sym_models(st@).reverse(),
        decreases st@.len(),
    {
        let ghost prev_st = st@;
        let ghost prev_out = out@;
        let sym = st.pop();
        proof {
            assert(sym_models(st@) =~= sym_models(prev_st).drop_last());
        }
        match sym {
            Some(StackSym::Op(o)) => {
                out.push(Token::Op(o));
                proof {
                    lemma_models_push(prev_out, Token::Op(o));
                    assert(sym_models(prev_st).last() == Tok::Op(o));
                    lemma_flush_top(sym_models(prev_st), models(prev_out));
                }
            },
            Some(StackSym::Open) => {
                out.push(Token::Open);
                proof {
                    lemma_models_push(prev_out, Token::Open);
                    assert(sym_models(prev_st).last() == Tok::Open);
                    lemma_flush_top(sym_models(prev_st), models(prev_out));
                }
            },
            None => {
                proof {
                    assert(false);
                }
            },
        }
    }
    proof {
        assert(models(out@) + sym_models(st@).reverse() =~= models(out@));
    }
    out
}

/// The outcome of translation: the postfix form of the expression, or the
/// rejection of text that does not tokenize or is not a well-formed infix
/// expression.
pub open spec fn spec_translate(s: Seq<char>) -> Result<Seq<Tok>, JitError> {
    match spec_tokens(s, 0, true) {
        None => Err(JitError::MalformedExpression),
        Some(ts) => if wf_tokens(ts) {
            Ok(spec_postfix(ts))
        } else {
            Err(JitError::MalformedExpression)
        },
    }
}

/// Translate an infix arithmetic expression into a postfix token sequence.
/// Rejects, rather than mistranslates, text with a foreign character,
/// unbalanced parentheses, or misplaced operators.
pub fn translate(expr: &str) -> (r: Result<Vec<Token>, JitError>)
    ensures
        match r {
            Ok(v) => spec_translate(expr@) == Ok::<Seq<Tok>, JitError>(models(v@)),
            Err(e) => spec_translate(expr@) == Err::<Seq<Tok>, JitError>(e),
        },
{
    let tokens = match tokenize(expr) {
        Ok(t) => t,
        Err(e) => {
            return Err(e);
        },
    };
    if !check_wf(&tokens) {
        return Err(JitError::MalformedExpression);
    }
    Ok(shunt(&tokens))
}

} // verus!
