//! Infix-to-postfix conversion (shunting yard) and postfix evaluation.
use vstd::prelude::*;
use vstd::string::StrSliceExecFns;

use crate::text::char_to_string;
use crate::text::is_ws_char;
use crate::text::push_char;
use crate::tokens::classify;
use crate::tokens::classify_char;
use crate::tokens::match_symbol;
use crate::tokens::match_token;
use crate::text::parse_i32_spec;
use crate::errors::EvalError;

verus! {

/// The formula with every whitespace and underscore character removed, as
/// the converter preprocesses its input.
pub open spec fn strip(s: Seq<char>) -> Seq<char>
    decreases s.len(),
{
    if s.len() == 0 {
        Seq::empty()
    } else if is_ws_char(s.last()) || s.last() == '_' {
        strip(s.drop_last())
    } else {
        strip(s.drop_last()).push(s.last())
    }
}

/// Each character as a one-character token.
pub open spec fn singletons(cs: Seq<char>) -> Seq<Seq<char>> {
    cs.map_values(|c: char| seq![c])
}

/// State of the left-to-right shunting-yard scan: the postfix tokens emitted
/// so far, the growing operand accumulator, the operator/group stack (top is
/// the last element), and the just-closed-group flag.
#[verifier::ext_equal]
pub struct ShuntState {
    pub output: Seq<Seq<char>>,
    pub acc: Seq<char>,
    pub stack: Seq<char>,
    pub lorb: bool,
}

/// Splits the stack at the first (from the top) operator of precedence below
/// `p`: the first component lists the popped operators in pop order, the
/// second is what remains on the stack.
pub open spec fn pop_ge(stack: Seq<char>, p: int) -> (Seq<char>, Seq<char>)
    decreases stack.len(),
{
    if stack.len() == 0 {
        (Seq::empty(), stack)
    } else if classify_char(stack.last()) >= p {
        let r = pop_ge(stack.drop_last(), p);
        (seq![stack.last()] + r.0, r.1)
    } else {
        (Seq::empty(), stack)
    }
}

/// Pops the stack down to (and through) the nearest left-group symbol: the
/// first component lists the popped operators in pop order, the second is
/// the stack with those operators and the left-group symbol removed. When no
/// left-group symbol is on the stack, the whole stack is drained, matching
/// the converter's tolerance of unbalanced groups.
pub open spec fn pop_to_group(stack: Seq<char>) -> (Seq<char>, Seq<char>)
    decreases stack.len(),
{
    if stack.len() == 0 {
        (Seq::empty(), stack)
    } else if classify_char(stack.last()) == -1 {
        (Seq::empty(), stack.drop_last())
    } else {
        let r = pop_to_group(stack.drop_last());
        (seq![stack.last()] + r.0, r.1)
    }
}

/// The scan's starting state.
pub open spec fn shunt_init() -> ShuntState {
    ShuntState { output: Seq::empty(), acc: Seq::empty(), stack: Seq::empty(), lorb: false }
}

/// One step of the shunting-yard scan on the next formula character.
///
/// An operator flushes a nonempty accumulator and then pops every operator
/// of precedence at least its own before being pushed; directly after a
/// closed group it is pushed without the pop loop; with nothing before it,
/// the character joins the accumulator instead (the scan is deliberately
/// permissive). A left group is pushed; a right group flushes the accumulator
/// and pops to the matching left group. Any other character joins the
/// accumulator.
pub open spec fn shunt_step(st: ShuntState, c: char) -> ShuntState {
    let p = classify_char(c);
    if p > 0 {
        if st.acc.len() > 0 {
            let r = pop_ge(st.stack, p);
            ShuntState {
                output: st.output.push(st.acc) + singletons(r.0),
                acc: Seq::empty(),
                stack: r.1.push(c),
                lorb: st.lorb,
            }
        } else if st.lorb {
            ShuntState { output: st.output, acc: st.acc, stack: st.stack.push(c), lorb: st.lorb }
        } else {
            ShuntState { output: st.output, acc: st.acc.push(c), stack: st.stack, lorb: st.lorb }
        }
    } else if p == -1 {
        ShuntState { output: st.output, acc: st.acc, stack: st.stack.push(c), lorb: false }
    } else if p == -2 {
        let st1 = if st.acc.len() > 0 {
            ShuntState { output: st.output.push(st.acc), acc: Seq::empty(), stack: st.stack, lorb: true }
        } else {
            st
        };
        let r = pop_to_group(st1.stack);
        ShuntState { output: st1.output + singletons(r.0), acc: st1.acc, stack: r.1, lorb: st1.lorb }
    } else {
        ShuntState { output: st.output, acc: st.acc.push(c), stack: st.stack, lorb: false }
    }
}

/// The scan's state after feeding the characters of `s`, left to right.
pub open spec fn shunt_feed(st: ShuntState, s: Seq<char>) -> ShuntState
    decreases s.len(),
{
    if s.len() == 0 {
        st
    } else {
        shunt_step(shunt_feed(st, s.drop_last()), s.last())
    }
}

/// The postfix sequence a finished scan yields: a last nonempty accumulator
/// is flushed as an operand fragment, then the remaining stack is drained in
/// last-in-first-out order.
pub open spec fn shunt_finish(st: ShuntState) -> Seq<Seq<char>> {
    let out = if st.acc.len() > 0 {
        st.output.push(st.acc)
    } else {
        st.output
    };
    out + singletons(st.stack.reverse())
}

/// The postfix token sequence of an infix formula: whitespace and
/// underscores are removed, then the shunting-yard scan runs over the
/// characters.
pub open spec fn rpn_of(formula: Seq<char>) -> Seq<Seq<char>> {
    shunt_finish(shunt_feed(shunt_init(), strip(formula)))
}

proof fn lemma_feed_snoc(st: ShuntState, s: Seq<char>, i: int)
    requires
        0 <= i < s.len(),
    ensures
        shunt_feed(st, s.take(i + 1)) == shunt_step(shunt_feed(st, s.take(i)), s[i]),
{
    let t = s.take(i + 1);
    assert(t.drop_last() =~= s.take(i));
    assert(t.last() == s[i]);
}

/// Removes every whitespace and underscore character from the formula.
fn strip_formula(s: &str) -> (r: String)
    ensures
        r@ == strip(s@),
{
    let len = s.unicode_len();
    let mut out = String::new();
    let mut i: usize = 0;
    while i < len
        invariant
            0 <= i <= len,
            len == s@.len(),
            out@ == strip(s@.take(i as int)),
        decreases len - i,
    {
        let c = s.get_char(i);
        assert(s@.take(i + 1).drop_last() =~= s@.take(i as int));
        if !(c == ' ' || c == '\t' || c == '\n' || c == '\r' || c == '_') {
            push_char(&mut out, c);
        }
        i = i + 1;
    }
    assert(s@.take(len as int) =~= s@);
    out
}

fn pop_emit_ge(stack: &mut Vec<char>, out: &mut Vec<String>, p: i32)
    ensures
        final(stack)@ == pop_ge(old(stack)@, p as int).1,
        final(out).deep_view() == old(out).deep_view() + singletons(pop_ge(old(stack)@, p as int).0),
    decreases old(stack)@.len(),
{
    if stack.len() == 0 {
        assert(out.deep_view() =~= out.deep_view() + singletons(Seq::<char>::empty()));
        return ;
    }
    let top = stack[stack.len() - 1];
    if match_symbol(top) >= p {
        let ghost stk0 = stack@;
        stack.pop();
        assert(stk0.last() == top && stk0.drop_last() =~= stack@);
        out.push(char_to_string(top));
        let ghost out1 = out.deep_view();
        assert(out1 =~= old(out).deep_view().push(seq![top]));
        pop_emit_ge(stack, out, p);
        assert(out.deep_view() =~= old(out).deep_view() + singletons(
            seq![top] + pop_ge(stk0.drop_last(), p as int).0,
        ));
    } else {
        assert(out.deep_view() =~= out.deep_view() + singletons(Seq::<char>::empty()));
    }
}

fn pop_emit_to_group(stack: &mut Vec<char>, out: &mut Vec<String>)
    ensures
        final(stack)@ == pop_to_group(old(stack)@).1,
        final(out).deep_view() == old(out).deep_view() + singletons(pop_to_group(old(stack)@).0),
    decreases old(stack)@.len(),
{
    if stack.len() == 0 {
        assert(out.deep_view() =~= out.deep_view() + singletons(Seq::<char>::empty()));
        return ;
    }
    let top = stack[stack.len() - 1];
    let ghost stk0 = stack@;
    stack.pop();
    assert(stk0.last() == top && stk0.drop_last() =~= stack@);
    if match_symbol(top) == -1 {
        assert(out.deep_view() =~= out.deep_view() + singletons(Seq::<char>::empty()));
        return ;
    }
    out.push(char_to_string(top));
    let ghost out1 = out.deep_view();
    assert(out1 =~= old(out).deep_view().push(seq![top]));
    pop_emit_to_group(stack, out);
    assert(out.deep_view() =~= old(out).deep_view() + singletons(
        seq![top] + pop_to_group(stk0.drop_last()).0,
    ));
}

fn drain_stack(stack: &mut Vec<char>, out: &mut Vec<String>)
    ensures
        final(stack)@ == Seq::<char>::empty(),
        final(out).deep_view() == old(out).deep_view() + singletons(old(stack)@.reverse()),
    decreases old(stack)@.len(),
{
    if stack.len() == 0 {
        assert(old(stack)@.reverse() =~= Seq::<char>::empty());
        assert(out.deep_view() =~= out.deep_view() + singletons(Seq::<char>::empty()));
        return ;
    }
    let top = stack[stack.len() - 1];
    let ghost stk0 = stack@;
    stack.pop();
    assert(stk0.last() == top && stk0.drop_last() =~= stack@);
    out.push(char_to_string(top));
    let ghost out1 = out.deep_view();
    assert(out1 =~= old(out).deep_view().push(seq![top]));
    drain_stack(stack, out);
    assert(stk0.reverse() =~= seq![top] + stk0.drop_last().reverse());
    assert(out.deep_view() =~= old(out).deep_view() + singletons(
        seq![top] + stk0.drop_last().reverse(),
    ));
}

/// Converts an infix formula into a postfix (reverse Polish) token sequence
/// using the shunting-yard scan. The converter never rejects its input:
/// malformed formulas surface later, at evaluation or render time.
pub fn parse_into_rpn(input_formula: &str) -> (r: Vec<String>)
    ensures
        r.deep_view() == rpn_of(input_formula@),
{
    let stripped = strip_formula(input_formula);
    let sref = stripped.as_str();
    let n = sref.unicode_len();
    let mut formula_vector: Vec<String> = Vec::new();
    let mut active_segment = String::new();
    let mut operator_stack: Vec<char> = Vec::new();
    let mut lorb = false;
    let mut i: usize = 0;
    assert(sref@.take(0) =~= Seq::<char>::empty());
    while i < n
        invariant
            0 <= i <= n,
            n == sref@.len(),
            sref@ == strip(input_formula@),
            formula_vector.deep_view() == shunt_feed(shunt_init(), sref@.take(i as int)).output,
            active_segment@ == shunt_feed(shunt_init(), sref@.take(i as int)).acc,
            operator_stack@ == shunt_feed(shunt_init(), sref@.take(i as int)).stack,
            lorb == shunt_feed(shunt_init(), sref@.take(i as int)).lorb,
        decreases n - i,
    {
        let ghost st = shunt_feed(shunt_init(), sref@.take(i as int));
        proof {
            lemma_feed_snoc(shunt_init(), sref@, i as int);
        }
        let c = sref.get_char(i);
        let precedence = match_symbol(c);
        if precedence > 0 {
            if !active_segment.as_str().is_empty() {
                formula_vector.push(active_segment);
                assert(formula_vector.deep_view() =~= st.output.push(st.acc));
                active_segment = String::new();
                pop_emit_ge(&mut operator_stack, &mut formula_vector, precedence);
                operator_stack.push(c);
                assert(formula_vector.deep_view() =~= shunt_step(st, sref@[i as int]).output);
            } else if lorb {
                operator_stack.push(c);
                assert(operator_stack@ =~= st.stack.push(c));
            } else {
                push_char(&mut active_segment, c);
            }
        } else if precedence == -1 {
            lorb = false;
            operator_stack.push(c);
            assert(operator_stack@ =~= st.stack.push(c));
        } else if precedence == -2 {
            if !active_segment.as_str().is_empty() {
                formula_vector.push(active_segment);
                assert(formula_vector.deep_view() =~= st.output.push(st.acc));
                active_segment = String::new();
                lorb = true;
            }
            let ghost st1 = if st.acc.len() > 0 {
                ShuntState {
                    output: st.output.push(st.acc),
                    acc: Seq::<char>::empty(),
                    stack: st.stack,
                    lorb: true,
                }
            } else {
                st
            };
            assert(formula_vector.deep_view() == st1.output);
            assert(active_segment@ =~= st1.acc);
            pop_emit_to_group(&mut operator_stack, &mut formula_vector);
            assert(formula_vector.deep_view() =~= st1.output + singletons(pop_to_group(
                st1.stack,
            ).0));
        } else {
            lorb = false;
            push_char(&mut active_segment, c);
        }
        i = i + 1;
    }
    assert(sref@.take(n as int) =~= sref@);
    let ghost st_end = shunt_feed(shunt_init(), sref@);
    if !active_segment.as_str().is_empty() {
        formula_vector.push(active_segment);
        assert(formula_vector.deep_view() =~= st_end.output.push(st_end.acc));
    }
    drain_stack(&mut operator_stack, &mut formula_vector);
    assert(formula_vector.deep_view() =~= shunt_finish(st_end));
    formula_vector
}

/// Quotient of `b` by `a`, rounded half away from zero.
pub open spec fn div_round_half(b: int, a: int) -> int
    recommends
        a != 0,
{
    let m = vstd::math::abs(b);
    let n = vstd::math::abs(a);
    let q = (2 * m + n) / (2 * n);
    if (b < 0) == (a < 0) {
        q as int
    } else {
        -(q as int)
    }
}

/// The new evaluation stack when the value fits in a 32-bit integer, the
/// overflow error otherwise.
pub open spec fn eval_push(stack: Seq<int>, v: int) -> Result<Seq<int>, EvalError> {
    if i32::MIN <= v <= i32::MAX {
        Ok(stack.push(v))
    } else {
        Err(EvalError::NumericOverflow)
    }
}

/// One evaluation step on the next postfix token: an integer token is pushed;
/// any other token must be an operator, which replaces the two topmost values
/// `b` (lower) and `a` (top) with `b op a`, dividing with rounding half away
/// from zero.
pub open spec fn eval_step(stack: Seq<int>, tok: Seq<char>) -> Result<Seq<int>, EvalError> {
    match parse_i32_spec(tok) {
        Some(v) => Ok(stack.push(v)),
        None => if stack.len() < 2 {
            Err(EvalError::MissingOperand)
        } else {
            let a = stack.last();
            let b = stack[stack.len() - 2];
            let rest = stack.take(stack.len() - 2);
            let p = classify(tok);
            if p == 4 {
                if a == 0 {
                    Err(EvalError::DivideByZero)
                } else {
                    eval_push(rest, div_round_half(b, a))
                }
            } else if p == 3 {
                eval_push(rest, b * a)
            } else if p == 2 {
                eval_push(rest, b + a)
            } else if p == 1 {
                eval_push(rest, b - a)
            } else {
                Err(EvalError::InvalidOperator)
            }
        },
    }
}

/// The evaluation stack after consuming the tokens left to right, or the
/// first failure.
pub open spec fn eval_tokens(tokens: Seq<Seq<char>>, stack: Seq<int>) -> Result<
    Seq<int>,
    EvalError,
>
    decreases tokens.len(),
{
    if tokens.len() == 0 {
        Ok(stack)
    } else {
        match eval_tokens(tokens.drop_last(), stack) {
            Ok(st) => eval_step(st, tokens.last()),
            Err(e) => Err(e),
        }
    }
}

/// The value of a postfix numeric formula: the top of the final evaluation
/// stack, `0` for an empty formula, or the first failure.
pub open spec fn eval_rpn(tokens: Seq<Seq<char>>) -> Result<int, EvalError> {
    match eval_tokens(tokens, Seq::empty()) {
        Ok(st) => Ok(if st.len() == 0 { 0int } else { st.last() }),
        Err(e) => Err(e),
    }
}

/// A division whose right operand is zero always fails with the
/// divide-by-zero error: evaluation never silently returns a value for it.
pub proof fn lemma_divide_by_zero(stack: Seq<int>, tok: Seq<char>)
    requires
        parse_i32_spec(tok) is None,
        classify(tok) == 4,
        stack.len() >= 2,
        stack.last() == 0,
    ensures
        eval_step(stack, tok) == Err::<Seq<int>, EvalError>(EvalError::DivideByZero),
{
}

/// A postfix formula whose last step divides by zero evaluates to the
/// divide-by-zero error.
pub proof fn lemma_eval_ends_divide_by_zero(tokens: Seq<Seq<char>>)
    requires
        tokens.len() >= 1,
        parse_i32_spec(tokens.last()) is None,
        classify(tokens.last()) == 4,
        (eval_tokens(tokens.drop_last(), Seq::empty()) matches Ok(st) && st.len() >= 2
            && st.last() == 0),
    ensures
        eval_rpn(tokens) == Err::<int, EvalError>(EvalError::DivideByZero),
{
}

proof fn lemma_eval_snoc(tokens: Seq<Seq<char>>, i: int)
    requires
        0 <= i < tokens.len(),
    ensures
        eval_tokens(tokens.take(i + 1), Seq::empty()) == (match eval_tokens(
            tokens.take(i),
            Seq::empty(),
        ) {
            Ok(st) => eval_step(st, tokens[i]),
            Err(e) => Err(e),
        }),
{
    let t = tokens.take(i + 1);
    assert(t.drop_last() =~= tokens.take(i));
    assert(t.last() == tokens[i]);
}

proof fn lemma_eval_error_persists(tokens: Seq<Seq<char>>, k: int, e: EvalError)
    requires
        0 <= k <= tokens.len(),
        eval_tokens(tokens.take(k), Seq::empty()) == Err::<Seq<int>, EvalError>(e),
    ensures
        eval_tokens(tokens, Seq::empty()) == Err::<Seq<int>, EvalError>(e),
    decreases tokens.len() - k,
{
    if k == tokens.len() {
        assert(tokens.take(k) =~= tokens);
    } else {
        lemma_eval_snoc(tokens, k);
        lemma_eval_error_persists(tokens, k + 1, e);
    }
}

/// Divides with rounding half away from zero, failing when the rounded
/// quotient does not fit in a 32-bit integer.
fn divide_rounded(b: i32, a: i32) -> (r: Result<i32, EvalError>)
    requires
        a != 0,
    ensures
        match r {
            Ok(v) => i32::MIN <= div_round_half(b as int, a as int) <= i32::MAX && v as int
                == div_round_half(b as int, a as int),
            Err(e) => e == EvalError::NumericOverflow && !(i32::MIN <= div_round_half(
                b as int,
                a as int,
            ) <= i32::MAX),
        },
{
    let m: u64 = if b >= 0 {
        b as u64
    } else {
        (-(b as i64)) as u64
    };
    let n: u64 = if a >= 0 {
        a as u64
    } else {
        (-(a as i64)) as u64
    };
    let q: u64 = (2 * m + n) / (2 * n);
    if (b < 0) == (a < 0) {
        if q > 0x7FFF_FFFFu64 {
            Err(EvalError::NumericOverflow)
        } else {
            Ok(q as i32)
        }
    } else {
        if q > 0x8000_0000u64 {
            Err(EvalError::NumericOverflow)
        } else {
            Ok((-(q as i64)) as i32)
        }
    }
}

/// Evaluates a postfix numeric formula to a single 32-bit integer: integer
/// tokens are pushed on a value stack and operator tokens combine the two
/// topmost values. The answer is the final top of stack, `0` for an empty
/// formula.
pub fn solve_rpn_formula(formula: Vec<String>) -> (r: Result<i32, EvalError>)
    ensures
        match r {
            Ok(v) => eval_rpn(formula.deep_view()) == Ok::<int, EvalError>(v as int),
            Err(e) => eval_rpn(formula.deep_view()) == Err::<int, EvalError>(e),
        },
{
    let ghost toks = formula.deep_view();
    let mut working_stack: Vec<i32> = Vec::new();
    let n = formula.len();
    let mut i: usize = 0;
    assert(toks.take(0) =~= Seq::<Seq<char>>::empty());
    assert(working_stack@.map_values(|x: i32| x as int) =~= Seq::<int>::empty());
    while i < n
        invariant
            0 <= i <= n,
            n == formula@.len(),
            toks == formula.deep_view(),
            eval_tokens(toks.take(i as int), Seq::empty()) == Ok::<Seq<int>, EvalError>(
                working_stack@.map_values(|x: i32| x as int),
            ),
        decreases n - i,
    {
        let ghost stack_model = working_stack@.map_values(|x: i32| x as int);
        proof {
            lemma_eval_snoc(toks, i as int);
            assert(toks[i as int] == formula@[i as int]@);
        }
        let e = &formula[i];
        match crate::text::parse_i32(e.as_str()) {
            Some(v) => {
                working_stack.push(v);
                assert(working_stack@.map_values(|x: i32| x as int) =~= stack_model.push(v as int));
            },
            None => {
                if working_stack.len() < 2 {
                    proof {
                        lemma_eval_error_persists(toks, i + 1, EvalError::MissingOperand);
                    }
                    return Err(EvalError::MissingOperand);
                }
                let a = working_stack.pop().unwrap();
                let b = working_stack.pop().unwrap();
                proof {
                    assert(a as int == stack_model.last());
                    assert(b as int == stack_model[stack_model.len() - 2]);
                    assert(working_stack@.map_values(|x: i32| x as int) =~= stack_model.take(
                        stack_model.len() - 2,
                    ));
                }
                let prec = match_token(e.as_str());
                let step: Result<i32, EvalError> = if prec == 4 {
                    if a == 0 {
                        Err(EvalError::DivideByZero)
                    } else {
                        divide_rounded(b, a)
                    }
                } else if prec == 3 {
                    proof {
                        assert((b as i64) * (a as i64) <= 0x4000_0000_0000_0000i64 && (b as i64)
                            * (a as i64) >= -0x4000_0000_0000_0000i64) by (nonlinear_arith)
                            requires
                                -0x8000_0000i64 <= b as i64 <= 0x7FFF_FFFFi64,
                                -0x8000_0000i64 <= a as i64 <= 0x7FFF_FFFFi64,
                        ;
                    }
                    let w = (b as i64) * (a as i64);
                    if w < i32::MIN as i64 || w > i32::MAX as i64 {
                        Err(EvalError::NumericOverflow)
                    } else {
                        Ok(w as i32)
                    }
                } else if prec == 2 {
                    let w = (b as i64) + (a as i64);
                    if w < i32::MIN as i64 || w > i32::MAX as i64 {
                        Err(EvalError::NumericOverflow)
                    } else {
                        Ok(w as i32)
                    }
                } else if prec == 1 {
                    let w = (b as i64) - (a as i64);
                    if w < i32::MIN as i64 || w > i32::MAX as i64 {
                        Err(EvalError::NumericOverflow)
                    } else {
                        Ok(w as i32)
                    }
                } else {
                    Err(EvalError::InvalidOperator)
                };
                match step {
                    Ok(v) => {
                        working_stack.push(v);
                        assert(working_stack@.map_values(|x: i32| x as int) =~= stack_model.take(
                            stack_model.len() - 2,
                        ).push(v as int));
                    },
                    Err(err) => {
                        proof {
                            assert(eval_step(stack_model, toks[i as int]) == Err::<
                                Seq<int>,
                                EvalError,
                            >(err));
                            lemma_eval_error_persists(toks, i + 1, err);
                        }
                        return Err(err);
                    },
                }
            },
        }
        i = i + 1;
    }
    assert(toks.take(n as int) =~= toks);
    if working_stack.len() == 0 {
        Ok(0)
    } else {
        let t = working_stack[working_stack.len() - 1];
        assert(t as int == working_stack@.map_values(|x: i32| x as int).last());
        Ok(t)
    }
}

} // verus!
