//! Reconstruction of a fully parenthesized infix string from a postfix
//! token sequence.
use vstd::prelude::*;

use crate::errors::RenderError;
use crate::tokens::classify;
use crate::tokens::match_token;

verus! {

/// The rendering of one operator application: `( b op a )`.
pub open spec fn joined(b: Seq<char>, op: Seq<char>, a: Seq<char>) -> Seq<char> {
    seq!['(', ' '] + b + seq![' '] + op + seq![' '] + a + seq![' ', ')']
}

/// One rendering step on the next postfix token: an operand fragment is
/// pushed verbatim; an operator pops the two topmost rendered operands `b`
/// (lower) and `a` (top) and pushes `( b op a )`.
pub open spec fn render_step(stack: Seq<Seq<char>>, tok: Seq<char>) -> Result<
    Seq<Seq<char>>,
    RenderError,
> {
    if classify(tok) > 0 {
        if stack.len() < 2 {
            Err(RenderError::InsufficientOperands)
        } else {
            let a = stack.last();
            let b = stack[stack.len() - 2];
            Ok(stack.take(stack.len() - 2).push(joined(b, tok, a)))
        }
    } else {
        Ok(stack.push(tok))
    }
}

/// The rendering stack after consuming the tokens left to right, or the
/// first failure.
pub open spec fn render_tokens(tokens: Seq<Seq<char>>, stack: Seq<Seq<char>>) -> Result<
    Seq<Seq<char>>,
    RenderError,
>
    decreases tokens.len(),
{
    if tokens.len() == 0 {
        Ok(stack)
    } else {
        match render_tokens(tokens.drop_last(), stack) {
            Ok(st) => render_step(st, tokens.last()),
            Err(e) => Err(e),
        }
    }
}

/// The infix rendering of a postfix sequence: the scan must end with exactly
/// one rendered value, which is the formula.
pub open spec fn infix_of(tokens: Seq<Seq<char>>) -> Result<Seq<char>, RenderError> {
    match render_tokens(tokens, Seq::empty()) {
        Ok(st) => if st.len() == 1 {
            Ok(st[0])
        } else if st.len() > 1 {
            Err(RenderError::TooManyValues)
        } else {
            Err(RenderError::NotEnoughValues)
        },
        Err(e) => Err(e),
    }
}

proof fn lemma_render_snoc(tokens: Seq<Seq<char>>, i: int)
    requires
        0 <= i < tokens.len(),
    ensures
        render_tokens(tokens.take(i + 1), Seq::empty()) == (match render_tokens(
            tokens.take(i),
            Seq::empty(),
        ) {
            Ok(st) => render_step(st, tokens[i]),
            Err(e) => Err(e),
        }),
{
    let t = tokens.take(i + 1);
    assert(t.drop_last() =~= tokens.take(i));
    assert(t.last() == tokens[i]);
}

proof fn lemma_render_error_persists(tokens: Seq<Seq<char>>, k: int, e: RenderError)
    requires
        0 <= k <= tokens.len(),
        render_tokens(tokens.take(k), Seq::empty()) == Err::<Seq<Seq<char>>, RenderError>(e),
    ensures
        render_tokens(tokens, Seq::empty()) == Err::<Seq<Seq<char>>, RenderError>(e),
    decreases tokens.len() - k,
{
    if k == tokens.len() {
        assert(tokens.take(k) =~= tokens);
    } else {
        lemma_render_snoc(tokens, k);
        lemma_render_error_persists(tokens, k + 1, e);
    }
}

/// Renders a postfix token sequence as a fully parenthesized infix string,
/// joining each operator with its two operands as `( b op a )`.
pub fn parse_into_infix(input_formula: Vec<String>) -> (r: Result<String, RenderError>)
    ensures
        match r {
            Ok(s) => infix_of(input_formula.deep_view()) == Ok::<Seq<char>, RenderError>(s@),
            Err(e) => infix_of(input_formula.deep_view()) == Err::<Seq<char>, RenderError>(e),
        },
{
    let ghost toks = input_formula.deep_view();
    let mut formula_vector: Vec<String> = Vec::new();
    let n = input_formula.len();
    let mut i: usize = 0;
    assert(toks.take(0) =~= Seq::<Seq<char>>::empty());
    assert(formula_vector.deep_view() =~= Seq::<Seq<char>>::empty());
    while i < n
        invariant
            0 <= i <= n,
            n == input_formula@.len(),
            toks == input_formula.deep_view(),
            render_tokens(toks.take(i as int), Seq::empty()) == Ok::<Seq<Seq<char>>, RenderError>(
                formula_vector.deep_view(),
            ),
        decreases n - i,
    {
        let ghost stack_model = formula_vector.deep_view();
        proof {
            lemma_render_snoc(toks, i as int);
            assert(toks[i as int] == input_formula@[i as int]@);
        }
        let e = &input_formula[i];
        let precedence = match_token(e.as_str());
        if precedence > 0 {
            if formula_vector.len() < 2 {
                proof {
                    lemma_render_error_persists(toks, i + 1, RenderError::InsufficientOperands);
                }
                return Err(RenderError::InsufficientOperands);
            }
            let a = formula_vector.pop().unwrap();
            let b = formula_vector.pop().unwrap();
            proof {
                assert(a@ == stack_model.last());
                assert(b@ == stack_model[stack_model.len() - 2]);
                assert(formula_vector.deep_view() =~= stack_model.take(stack_model.len() - 2));
            }
            let mut t = String::from_str("( ");
            t.append(b.as_str());
            t.append(" ");
            t.append(e.as_str());
            t.append(" ");
            t.append(a.as_str());
            t.append(" )");
            proof {
                reveal_strlit("( ");
                reveal_strlit(" ");
                reveal_strlit(" )");
                assert(t@ =~= joined(b@, e@, a@));
            }
            formula_vector.push(t);
            assert(formula_vector.deep_view() =~= stack_model.take(stack_model.len() - 2).push(
                joined(b@, e@, a@),
            ));
        } else {
            formula_vector.push(e.clone());
            assert(formula_vector.deep_view() =~= stack_model.push(e@));
        }
        i = i + 1;
    }
    assert(toks.take(n as int) =~= toks);
    if formula_vector.len() == 1 {
        let ghost stack_model = formula_vector.deep_view();
        let s = formula_vector.pop().unwrap();
        assert(s@ == stack_model[0]);
        Ok(s)
    } else if formula_vector.len() > 1 {
        Err(RenderError::TooManyValues)
    } else {
        Err(RenderError::NotEnoughValues)
    }
}

} // verus!
