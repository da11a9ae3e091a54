//! Dice-notation formula library: converts infix formulas to postfix,
//! resolves dice fragments to rolled values, evaluates postfix numeric
//! formulas, and renders postfix sequences back to infix strings.
#![verifier::loop_isolation(false)]

use vstd::prelude::*;

pub mod errors;
pub mod infix;
mod random;
pub mod roundtrip;
pub mod rpn;
pub mod text;
pub mod tokens;

pub use errors::EvalError;
pub use errors::RenderError;
pub use errors::RollError;
pub use infix::parse_into_infix;
pub use rpn::parse_into_rpn;
pub use rpn::solve_rpn_formula;
pub use tokens::match_token;

use crate::errors::RollError as RErr;
use crate::random::roll_die;
use crate::text::dec_str_of;
use crate::text::parse_i32;
use crate::text::parse_i32_spec;
use crate::text::push_char;
use crate::tokens::classify;
use vstd::string::StrSliceExecFns;
use vstd::string::StringExecFns;

verus! {

/// One die outcome. `sides == 0` marks a literal (non-randomized) integer
/// operand; `sides > 0` is an actual die with that face count.
#[derive(Clone, Copy, Debug, PartialEq, Eq, Structural)]
pub struct DiceRoll {
    pub sides: i32,
    pub result: i32,
}

impl DiceRoll {
    /// The face count of this outcome, `0` for a literal operand.
    pub fn get_sides(&self) -> (r: i32)
        ensures
            r == self.sides,
    {
        self.sides
    }

    /// The rolled (or literal) value of this outcome.
    pub fn get_result(&self) -> (r: i32)
        ensures
            r == self.result,
    {
        self.result
    }
}

/// Sum of the die results, in order.
pub open spec fn sum_results(rolls: Seq<DiceRoll>) -> int
    decreases rolls.len(),
{
    if rolls.len() == 0 {
        0
    } else {
        sum_results(rolls.drop_last()) + rolls.last().result as int
    }
}

/// Every prefix of the roll sequence sums within the 32-bit range, so the
/// sum of rolls can be taken in declaration order without overflow.
pub open spec fn prefix_sums_fit(rolls: Seq<DiceRoll>) -> bool {
    forall|k: int|
        0 <= k <= rolls.len() ==> i32::MIN <= #[trigger] sum_results(rolls.take(k)) <= i32::MAX
}

/// Index of the first occurrence of `c`, if any.
pub open spec fn find_char(s: Seq<char>, c: char) -> Option<int>
    decreases s.len(),
{
    if s.len() == 0 {
        None
    } else if s[0] == c {
        Some(0int)
    } else {
        match find_char(s.skip(1), c) {
            Some(i) => Some(i + 1),
            None => None,
        }
    }
}

/// The count text and sides text of a dice fragment: the fragment is split
/// at its first `d`; a fragment beginning with `d` counts one die; a
/// fragment without `d` is all count text.
pub open spec fn frag_parts(s: Seq<char>) -> (Seq<char>, Seq<char>) {
    match find_char(s, 'd') {
        Some(i) => (
            (if i == 0 {
                seq!['1']
            } else {
                s.take(i)
            }),
            s.skip(i + 1),
        ),
        None => (s, Seq::<char>::empty()),
    }
}

/// What an operand fragment denotes: a plain integer; `count` dice with
/// `sides` faces; or a malformed count or sides part. The count must be a
/// positive integer; the sides must be a positive integer or the percent
/// marker, which means one hundred faces.
pub enum FragClass {
    Literal(int),
    Dice(int, int),
    BadCount,
    BadSides,
}

/// Classifies an operand fragment.
pub open spec fn frag_class(s: Seq<char>) -> FragClass {
    match parse_i32_spec(s) {
        Some(v) => FragClass::Literal(v),
        None => {
            let parts = frag_parts(s);
            match parse_i32_spec(parts.0) {
                Some(c) => if c < 1 {
                    FragClass::BadCount
                } else {
                    match parse_i32_spec(parts.1) {
                        Some(sd) => if sd < 1 {
                            FragClass::BadSides
                        } else {
                            FragClass::Dice(c, sd)
                        },
                        None => if classify(parts.1) == -3 {
                            FragClass::Dice(c, 100)
                        } else {
                            FragClass::BadSides
                        },
                    }
                },
                None => FragClass::BadCount,
            }
        },
    }
}

/// True of fragments that resolve without error: literals and well-formed
/// dice terms.
pub open spec fn frag_wf(s: Seq<char>) -> bool {
    match frag_class(s) {
        FragClass::Literal(_) => true,
        FragClass::Dice(_, _) => true,
        _ => false,
    }
}

/// How one operand fragment resolves: a literal yields a single outcome with
/// zero sides carrying its value; a dice term yields one outcome per die,
/// each within the die's inclusive range. The numeric token is the decimal
/// string of the summed results.
pub open spec fn fragment_resolved(frag: Seq<char>, outs: Seq<DiceRoll>, num_tok: Seq<char>) -> bool {
    match frag_class(frag) {
        FragClass::Literal(v) => outs.len() == 1 && outs[0].sides == 0 && outs[0].result as int == v
            && num_tok == dec_str_of(v),
        FragClass::Dice(c, sd) => outs.len() == c && (forall|j: int|
            0 <= j < outs.len() ==> outs[j].sides as int == sd && 1 <= outs[j].result as int <= sd)
            && i32::MIN <= sum_results(outs) <= i32::MAX && num_tok == dec_str_of(
            sum_results(outs),
        ),
        FragClass::BadCount => false,
        FragClass::BadSides => false,
    }
}

proof fn lemma_find_char_at(s: Seq<char>, c: char, k: int)
    requires
        0 <= k < s.len(),
        s[k] == c,
        forall|j: int| 0 <= j < k ==> s[j] != c,
    ensures
        find_char(s, c) == Some(k),
    decreases k,
{
    if k > 0 {
        let t = s.skip(1);
        assert(forall|j: int| 0 <= j < t.len() ==> t[j] == s[j + 1]);
        lemma_find_char_at(t, c, k - 1);
    }
}

proof fn lemma_find_char_none(s: Seq<char>, c: char)
    requires
        forall|j: int| 0 <= j < s.len() ==> s[j] != c,
    ensures
        find_char(s, c) == None::<int>,
    decreases s.len(),
{
    if s.len() > 0 {
        let t = s.skip(1);
        assert(forall|j: int| 0 <= j < t.len() ==> t[j] == s[j + 1]);
        lemma_find_char_none(t, c);
    }
}

proof fn lemma_sum_nonneg(rolls: Seq<DiceRoll>)
    requires
        forall|j: int| 0 <= j < rolls.len() ==> rolls[j].result >= 0,
    ensures
        sum_results(rolls) >= 0,
    decreases rolls.len(),
{
    if rolls.len() > 0 {
        assert(forall|j: int| 0 <= j < rolls.len() - 1 ==> rolls.drop_last()[j] == rolls[j]);
        lemma_sum_nonneg(rolls.drop_last());
    }
}

proof fn lemma_sum_take_le(rolls: Seq<DiceRoll>, k: int)
    requires
        forall|j: int| 0 <= j < rolls.len() ==> rolls[j].result >= 0,
        0 <= k <= rolls.len(),
    ensures
        sum_results(rolls.take(k)) <= sum_results(rolls),
    decreases rolls.len() - k,
{
    if k < rolls.len() {
        let t = rolls.take(k + 1);
        assert(t.drop_last() =~= rolls.take(k));
        assert(t.last() == rolls[k]);
        lemma_sum_take_le(rolls, k + 1);
    } else {
        assert(rolls.take(k) =~= rolls);
    }
}

/// The concatenation of the per-fragment outcome groups, in order.
pub open spec fn concat_all(groups: Seq<Seq<DiceRoll>>) -> Seq<DiceRoll>
    decreases groups.len(),
{
    if groups.len() == 0 {
        Seq::empty()
    } else {
        concat_all(groups.drop_last()) + groups.last()
    }
}

/// How one postfix token contributes to a resolved formula: an operator
/// passes through unchanged and rolls nothing; an operand fragment resolves
/// to its outcome group and numeric token.
pub open spec fn group_ok(tok: Seq<char>, group: Seq<DiceRoll>, num_tok: Seq<char>) -> bool {
    if classify(tok) > 0 {
        num_tok == tok && group == Seq::<DiceRoll>::empty()
    } else {
        fragment_resolved(tok, group, num_tok)
    }
}

/// A resolved formula arose from the input sequence: some assignment of
/// outcome groups to the input tokens witnesses it.
pub open spec fn resolved_from(
    input: Seq<Seq<char>>,
    rolls: Seq<DiceRoll>,
    numeric: Seq<Seq<char>>,
    notation: Seq<Seq<char>>,
) -> bool {
    exists|groups: Seq<Seq<DiceRoll>>| resolves_with(input, rolls, numeric, notation, groups)
}

/// How a whole postfix sequence resolves: the notation formula keeps the
/// input tokens; the numeric formula has the same length, with operators in
/// place and each operand fragment replaced by its summed value; the roll
/// list is the concatenation of the per-fragment outcome groups.
pub open spec fn resolves_with(
    input: Seq<Seq<char>>,
    rolls: Seq<DiceRoll>,
    numeric: Seq<Seq<char>>,
    notation: Seq<Seq<char>>,
    groups: Seq<Seq<DiceRoll>>,
) -> bool {
    &&& groups.len() == input.len()
    &&& notation == input
    &&& numeric.len() == input.len()
    &&& (forall|i: int| 0 <= i < input.len() ==> #[trigger] group_ok(input[i], groups[i], numeric[i]))
    &&& rolls == concat_all(groups)
}

/// Every operand fragment of the sequence is well formed, so resolution can
/// fail only by numeric overflow.
pub open spec fn all_frags_wf(input: Seq<Seq<char>>) -> bool {
    forall|i: int| 0 <= i < input.len() ==> classify(#[trigger] input[i]) > 0 || frag_wf(input[i])
}

/// Largest value an operand fragment can contribute: a literal is itself; a
/// dice term contributes at most `count * sides`.
pub open spec fn frag_max(t: Seq<char>) -> int {
    match frag_class(t) {
        FragClass::Literal(v) => v,
        FragClass::Dice(c, sd) => c * sd,
        FragClass::BadCount => 0,
        FragClass::BadSides => 0,
    }
}

/// Smallest value an operand fragment can contribute: a literal is itself; a
/// dice term contributes at least `count`.
pub open spec fn frag_min(t: Seq<char>) -> int {
    match frag_class(t) {
        FragClass::Literal(v) => v,
        FragClass::Dice(c, _) => c,
        FragClass::BadCount => 0,
        FragClass::BadSides => 0,
    }
}

/// Largest possible sum of all rolls of the sequence's fragments.
pub open spec fn max_total(input: Seq<Seq<char>>) -> int
    decreases input.len(),
{
    if input.len() == 0 {
        0
    } else {
        max_total(input.drop_last()) + (if classify(input.last()) > 0 {
            0int
        } else {
            frag_max(input.last())
        })
    }
}

/// Smallest possible sum of all rolls of the sequence's fragments.
pub open spec fn min_total(input: Seq<Seq<char>>) -> int
    decreases input.len(),
{
    if input.len() == 0 {
        0
    } else {
        min_total(input.drop_last()) + (if classify(input.last()) > 0 {
            0int
        } else {
            frag_min(input.last())
        })
    }
}

/// No outcome of the dice can overflow a 32-bit sum: every prefix of the
/// sequence keeps its possible roll totals within range, and each fragment's
/// own largest total fits. On such inputs resolution is owed success.
pub open spec fn no_overflow_possible(input: Seq<Seq<char>>) -> bool {
    &&& (forall|k: int|
        0 <= k <= input.len() ==> i32::MIN <= min_total(#[trigger] input.take(k)) && max_total(
            input.take(k),
        ) <= i32::MAX)
    &&& (forall|i: int|
        0 <= i < input.len() ==> classify(#[trigger] input[i]) > 0 || frag_max(input[i])
            <= i32::MAX)
}

/// The conditions under which resolution reports each failure: a malformed
/// count or sides part in the first fragment that is not well formed, or a
/// possible overflow of a 32-bit sum.
pub open spec fn resolve_error_allowed(input: Seq<Seq<char>>, e: RollError) -> bool {
    match e {
        RollError::InvalidDiceCount => exists|i: int|
            #![auto]
            0 <= i < input.len() && classify(input[i]) <= 0 && frag_class(input[i]) is BadCount
                && all_frags_wf(input.take(i)),
        RollError::InvalidDiceSides => exists|i: int|
            #![auto]
            0 <= i < input.len() && classify(input[i]) <= 0 && frag_class(input[i]) is BadSides
                && all_frags_wf(input.take(i)),
        RollError::NumericOverflow => !no_overflow_possible(input),
    }
}

proof fn lemma_sum_concat(a: Seq<DiceRoll>, b: Seq<DiceRoll>)
    ensures
        sum_results(a + b) == sum_results(a) + sum_results(b),
    decreases b.len(),
{
    if b.len() == 0 {
        assert(a + b =~= a);
    } else {
        assert((a + b).drop_last() =~= a + b.drop_last());
        assert((a + b).last() == b.last());
        lemma_sum_concat(a, b.drop_last());
    }
}

proof fn lemma_sum_bounds(outs: Seq<DiceRoll>, sd: int)
    requires
        forall|j: int| 0 <= j < outs.len() ==> 1 <= outs[j].result && outs[j].result as int <= sd,
    ensures
        outs.len() <= sum_results(outs) <= outs.len() * sd,
    decreases outs.len(),
{
    if outs.len() == 0 {
    } else {
        let t = outs.drop_last();
        assert(forall|j: int| 0 <= j < t.len() ==> t[j] == outs[j]);
        lemma_sum_bounds(t, sd);
        assert(t.len() * sd + sd == outs.len() * sd) by (nonlinear_arith)
            requires
                t.len() + 1 == outs.len(),
        ;
    }
}

/// One resolved formula: the individual die outcomes, the postfix numeric
/// formula, and the postfix formula in its original dice notation.
pub struct DiceRolls {
    rolls: Vec<DiceRoll>,
    formula: Vec<String>,
    rolls_formula: Vec<String>,
}

impl DiceRolls {
    #[verifier::type_invariant]
    spec fn wf(self) -> bool {
        prefix_sums_fit(self.rolls@)
    }

    /// The die outcomes, in resolution order.
    pub closed spec fn rolls_view(self) -> Seq<DiceRoll> {
        self.rolls@
    }

    /// The postfix numeric formula's tokens.
    pub closed spec fn formula_view(self) -> Seq<Seq<char>> {
        self.formula.deep_view()
    }

    /// The postfix notation formula's tokens.
    pub closed spec fn rolls_formula_view(self) -> Seq<Seq<char>> {
        self.rolls_formula.deep_view()
    }

    /// The die outcomes, in resolution order.
    pub fn get_rolls(&self) -> (r: Vec<DiceRoll>)
        ensures
            r@ == self.rolls_view(),
    {
        let mut out: Vec<DiceRoll> = Vec::new();
        let n = self.rolls.len();
        let mut i: usize = 0;
        while i < n
            invariant
                0 <= i <= n,
                n == self.rolls@.len(),
                out@ == self.rolls@.take(i as int),
            decreases n - i,
        {
            out.push(self.rolls[i]);
            assert(out@ =~= self.rolls@.take(i + 1));
            i = i + 1;
        }
        assert(self.rolls@.take(n as int) =~= self.rolls@);
        out
    }

    /// The simple sum of all rolled (and literal) values.
    pub fn get_sum_of_rolls(&self) -> (r: i32)
        ensures
            r as int == sum_results(self.rolls_view()),
    {
        proof {
            use_type_invariant(self);
        }
        let mut total: i32 = 0;
        let n = self.rolls.len();
        let mut i: usize = 0;
        assert(self.rolls@.take(0) =~= Seq::<DiceRoll>::empty());
        while i < n
            invariant
                0 <= i <= n,
                n == self.rolls@.len(),
                prefix_sums_fit(self.rolls@),
                total as int == sum_results(self.rolls@.take(i as int)),
            decreases n - i,
        {
            proof {
                let t = self.rolls@.take(i + 1);
                assert(t.drop_last() =~= self.rolls@.take(i as int));
                assert(t.last() == self.rolls@[i as int]);
                assert(sum_results(self.rolls@.take(i + 1)) == total as int
                    + self.rolls@[i as int].result as int);
            }
            let w = total as i64 + self.rolls[i].result as i64;
            assert(i32::MIN <= w <= i32::MAX);
            total = w as i32;
            i = i + 1;
        }
        assert(self.rolls@.take(n as int) =~= self.rolls@);
        total
    }

    /// The result of the whole formula, applying every operator of the
    /// postfix numeric formula.
    pub fn get_result(&self) -> (r: Result<i32, EvalError>)
        ensures
            match r {
                Ok(v) => crate::rpn::eval_rpn(self.formula_view()) == Ok::<int, EvalError>(
                    v as int,
                ),
                Err(e) => crate::rpn::eval_rpn(self.formula_view()) == Err::<int, EvalError>(e),
            },
    {
        solve_rpn_formula(clone_tokens(&self.formula))
    }

    /// A listing of the dice and their rolled results, one `d<sides> ->
    /// [<result>]` entry per roll, comma-separated.
    pub fn get_rolls_string(&self) -> (r: String)
        ensures
            r@ == rolls_string_of(self.rolls_view()),
    {
        let mut rolls_string = String::new();
        let n = self.rolls.len();
        let mut i: usize = 0;
        proof {
            assert(self.rolls@.skip(0) =~= self.rolls@);
        }
        while i < n
            invariant
                0 <= i <= n,
                n == self.rolls@.len(),
                rolls_string_of(self.rolls@) == rolls_string@ + rolls_string_of(
                    self.rolls@.skip(i as int),
                ),
            decreases n - i,
        {
            let ghost rest = self.rolls@.skip(i as int);
            let entry = roll_entry(&self.rolls[i]);
            rolls_string.append(entry.as_str());
            if i < n - 1 {
                rolls_string.append(", ");
                proof {
                    reveal_strlit(", ");
                    assert(rest[0] == self.rolls@[i as int]);
                    assert(rest.skip(1) =~= self.rolls@.skip(i + 1));
                    assert(rolls_string@ =~= (rolls_string@.subrange(
                        0,
                        rolls_string@.len() - entry@.len() - 2,
                    ) + roll_entry_str(rest[0]) + seq![',', ' ']));
                }
            } else {
                proof {
                    assert(rest[0] == self.rolls@[i as int]);
                    assert(rest.len() == 1);
                    assert(self.rolls@.skip(i + 1) =~= Seq::<DiceRoll>::empty());
                }
            }
            i = i + 1;
        }
        proof {
            assert(self.rolls@.skip(n as int) =~= Seq::<DiceRoll>::empty());
        }
        rolls_string
    }

    /// The postfix numeric formula as one string: operand values bracketed,
    /// operators bare.
    pub fn get_formula_string_as_rpn(&self) -> (r: String)
        ensures
            r@ == rpn_display(self.formula_view()),
    {
        rpn_display_string(&self.formula)
    }

    /// The postfix numeric formula rendered as a fully grouped infix string,
    /// with the rendering's parentheses shown as square brackets.
    pub fn get_formula_string_as_infix(&self) -> (r: Result<String, RenderError>)
        ensures
            match r {
                Ok(s) => (crate::infix::infix_of(self.formula_view())
                    matches Ok(t) && s@ == bracketed(t)),
                Err(e) => crate::infix::infix_of(self.formula_view()) == Err::<Seq<char>, RenderError>(e),
            },
    {
        bracketed_infix_string(&self.formula)
    }

    /// The postfix notation formula as one string: operand fragments
    /// bracketed in their original dice notation, operators bare.
    pub fn get_rolls_formula_string_as_rpn(&self) -> (r: String)
        ensures
            r@ == rpn_display(self.rolls_formula_view()),
    {
        rpn_display_string(&self.rolls_formula)
    }

    /// The postfix notation formula rendered as a fully grouped infix
    /// string, with the rendering's parentheses shown as square brackets.
    pub fn get_rolls_formula_string_as_infix(&self) -> (r: Result<String, RenderError>)
        ensures
            match r {
                Ok(s) => (crate::infix::infix_of(self.rolls_formula_view())
                    matches Ok(t) && s@ == bracketed(t)),
                Err(e) => crate::infix::infix_of(self.rolls_formula_view()) == Err::<
                    Seq<char>,
                    RenderError,
                >(e),
            },
    {
        bracketed_infix_string(&self.rolls_formula)
    }
}

/// The display entry of one die outcome: `d<sides> -> [<result>]`.
pub open spec fn roll_entry_str(o: DiceRoll) -> Seq<char> {
    seq!['d'] + dec_str_of(o.sides as int) + seq![' ', '-', '>', ' ', '['] + dec_str_of(
        o.result as int,
    ) + seq![']']
}

/// The roll listing: the entries of all outcomes, comma-separated.
pub open spec fn rolls_string_of(rolls: Seq<DiceRoll>) -> Seq<char>
    decreases rolls.len(),
{
    if rolls.len() == 0 {
        Seq::empty()
    } else if rolls.len() == 1 {
        roll_entry_str(rolls[0])
    } else {
        roll_entry_str(rolls[0]) + seq![',', ' '] + rolls_string_of(rolls.skip(1))
    }
}

/// The postfix display of a token sequence: operators are followed by a
/// space; operand fragments are bracketed, the last one without a trailing
/// space.
pub open spec fn rpn_display(toks: Seq<Seq<char>>) -> Seq<char>
    decreases toks.len(),
{
    if toks.len() == 0 {
        Seq::empty()
    } else {
        (if classify(toks[0]) > 0 {
            toks[0] + seq![' ']
        } else if toks.len() == 1 {
            seq!['['] + toks[0] + seq![']']
        } else {
            seq!['['] + toks[0] + seq![']', ' ']
        }) + rpn_display(toks.skip(1))
    }
}

/// An infix rendering with its synthetic grouping shown as square brackets:
/// every `( ` becomes `[` and every ` )` becomes `]`.
pub open spec fn bracketed(s: Seq<char>) -> Seq<char> {
    crate::text::replace_seq(
        crate::text::replace_seq(s, seq!['(', ' '], seq!['[']),
        seq![' ', ')'],
        seq![']'],
    )
}

fn clone_tokens(v: &Vec<String>) -> (r: Vec<String>)
    ensures
        r@ == v@,
{
    let mut out: Vec<String> = Vec::new();
    let n = v.len();
    let mut i: usize = 0;
    while i < n
        invariant
            0 <= i <= n,
            n == v@.len(),
            out@ == v@.take(i as int),
        decreases n - i,
    {
        out.push(v[i].clone());
        assert(out@ =~= v@.take(i + 1));
        i = i + 1;
    }
    assert(v@.take(n as int) =~= v@);
    out
}

fn roll_entry(o: &DiceRoll) -> (r: String)
    ensures
        r@ == roll_entry_str(*o),
{
    let mut s = String::new();
    push_char(&mut s, 'd');
    let sides_str = crate::text::i32_to_dec_string(o.sides);
    s.append(sides_str.as_str());
    s.append(" -> [");
    let result_str = crate::text::i32_to_dec_string(o.result);
    s.append(result_str.as_str());
    push_char(&mut s, ']');
    proof {
        reveal_strlit(" -> [");
        assert(s@ =~= roll_entry_str(*o));
    }
    s
}

fn rpn_display_string(toks: &Vec<String>) -> (r: String)
    ensures
        r@ == rpn_display(toks.deep_view()),
{
    let ghost full = toks.deep_view();
    let mut formula_string = String::new();
    let n = toks.len();
    let mut i: usize = 0;
    proof {
        assert(full.skip(0) =~= full);
    }
    while i < n
        invariant
            0 <= i <= n,
            n == toks@.len(),
            full == toks.deep_view(),
            rpn_display(full) == formula_string@ + rpn_display(full.skip(i as int)),
        decreases n - i,
    {
        let ghost rest = full.skip(i as int);
        proof {
            assert(rest[0] == full[i as int]);
            assert(rest.skip(1) =~= full.skip(i + 1));
        }
        let fragment = &toks[i];
        let prec = match_token(fragment.as_str());
        if prec > 0 {
            formula_string.append(fragment.as_str());
            push_char(&mut formula_string, ' ');
            assert(formula_string@ =~= (formula_string@.subrange(
                0,
                formula_string@.len() - rest[0].len() - 1,
            ) + (rest[0] + seq![' '])));
        } else if i == n - 1 {
            push_char(&mut formula_string, '[');
            formula_string.append(fragment.as_str());
            push_char(&mut formula_string, ']');
            proof {
                assert(rest.len() == 1);
                assert(formula_string@ =~= (formula_string@.subrange(
                    0,
                    formula_string@.len() - rest[0].len() - 2,
                ) + (seq!['['] + rest[0] + seq![']'])));
            }
        } else {
            push_char(&mut formula_string, '[');
            formula_string.append(fragment.as_str());
            push_char(&mut formula_string, ']');
            push_char(&mut formula_string, ' ');
            assert(formula_string@ =~= (formula_string@.subrange(
                0,
                formula_string@.len() - rest[0].len() - 3,
            ) + (seq!['['] + rest[0] + seq![']', ' '])));
        }
        i = i + 1;
    }
    proof {
        assert(full.skip(n as int) =~= Seq::<Seq<char>>::empty());
    }
    formula_string
}

fn bracketed_infix_string(toks: &Vec<String>) -> (r: Result<String, RenderError>)
    ensures
        match r {
            Ok(s) => (crate::infix::infix_of(toks.deep_view()) matches Ok(t) && s@ == bracketed(t)),
            Err(e) => crate::infix::infix_of(toks.deep_view()) == Err::<Seq<char>, RenderError>(e),
        },
{
    match parse_into_infix(clone_tokens(toks)) {
        Ok(s) => {
            proof {
                reveal_strlit("( ");
                reveal_strlit("[");
                reveal_strlit(" )");
                reveal_strlit("]");
            }
            let once = crate::text::replace_str(s.as_str(), "( ", "[");
            let twice = crate::text::replace_str(once.as_str(), " )", "]");
            proof {
                assert("( "@ =~= seq!['(', ' ']);
                assert("["@ =~= seq!['[']);
                assert(" )"@ =~= seq![' ', ')']);
                assert("]"@ =~= seq![']']);
            }
            Ok(twice)
        },
        Err(e) => Err(e),
    }
}

proof fn lemma_concat_all_in_range(groups: Seq<Seq<DiceRoll>>)
    requires
        forall|i: int, j: int|
            0 <= i < groups.len() && 0 <= j < groups[i].len() ==> 1 <= (#[trigger] groups[i][j]).result
                && groups[i][j].result <= groups[i][j].sides,
    ensures
        forall|k: int|
            0 <= k < concat_all(groups).len() ==> 1 <= (#[trigger] concat_all(groups)[k]).result
                && concat_all(groups)[k].result <= concat_all(groups)[k].sides,
    decreases groups.len(),
{
    if groups.len() > 0 {
        let pre = groups.drop_last();
        assert(forall|i: int, j: int|
            0 <= i < pre.len() && 0 <= j < pre[i].len() ==> pre[i][j] == groups[i][j]);
        lemma_concat_all_in_range(pre);
        assert forall|k: int| 0 <= k < concat_all(groups).len() implies 1 <= (
        #[trigger] concat_all(groups)[k]).result && concat_all(groups)[k].result == concat_all(
            groups,
        )[k].result && concat_all(groups)[k].result <= concat_all(groups)[k].sides by {
            if k < concat_all(pre).len() {
                assert(concat_all(groups)[k] == concat_all(pre)[k]);
            } else {
                assert(concat_all(groups)[k] == groups.last()[k - concat_all(pre).len()]);
                assert(groups.last() == groups[groups.len() - 1]);
            }
        }
    }
}

/// On a formula whose operand fragments are all dice terms, every recorded
/// outcome's result lies within its die's inclusive range, from one to the
/// recorded face count.
pub proof fn lemma_dice_outcomes_in_range(
    input: Seq<Seq<char>>,
    rolls: Seq<DiceRoll>,
    numeric: Seq<Seq<char>>,
    notation: Seq<Seq<char>>,
)
    requires
        resolved_from(input, rolls, numeric, notation),
        forall|i: int|
            0 <= i < input.len() ==> classify(#[trigger] input[i]) > 0 || frag_class(
                input[i],
            ) is Dice,
    ensures
        forall|k: int|
            0 <= k < rolls.len() ==> 1 <= (#[trigger] rolls[k]).result && rolls[k].result
                <= rolls[k].sides,
{
    let groups = choose|groups: Seq<Seq<DiceRoll>>|
        resolves_with(input, rolls, numeric, notation, groups);
    assert forall|i: int, j: int|
        0 <= i < groups.len() && 0 <= j < groups[i].len() implies 1 <= (
    #[trigger] groups[i][j]).result && groups[i][j].result <= groups[i][j].sides by {
        assert(group_ok(input[i], groups[i], numeric[i]));
    }
    lemma_concat_all_in_range(groups);
}

/// The numeric and notation formulas of a resolved formula run in parallel:
/// they have equal length, operator tokens stand unchanged at the same
/// positions in both, and they diverge only in operand-fragment content.
pub proof fn lemma_parallel_formulas(
    input: Seq<Seq<char>>,
    rolls: Seq<DiceRoll>,
    numeric: Seq<Seq<char>>,
    notation: Seq<Seq<char>>,
)
    requires
        resolved_from(input, rolls, numeric, notation),
    ensures
        numeric.len() == notation.len(),
        forall|i: int|
            0 <= i < notation.len() && classify(#[trigger] notation[i]) > 0 ==> numeric[i]
                == notation[i],
{
    let groups = choose|groups: Seq<Seq<DiceRoll>>|
        resolves_with(input, rolls, numeric, notation, groups);
    assert forall|i: int|
        0 <= i < notation.len() && classify(#[trigger] notation[i]) > 0 implies numeric[i]
        == notation[i] by {
        assert(group_ok(input[i], groups[i], numeric[i]));
    }
}

/// Resolves one operand fragment: a fragment that parses entirely as an
/// integer is a literal; otherwise it is split at its first `d` into a count
/// and a sides part and one die is rolled per count. The fragment's numeric
/// value is the sum of its outcomes.
fn resolve_roll_fragment(input_fragment: &str) -> (r: Result<DiceRolls, RErr>)
    ensures
        match r {
            Ok(dr) => {
                &&& frag_wf(input_fragment@)
                &&& dr.rolls_formula_view() == seq![input_fragment@]
                &&& dr.formula_view().len() == 1
                &&& fragment_resolved(input_fragment@, dr.rolls_view(), dr.formula_view()[0])
            },
            Err(e) => match e {
                RErr::InvalidDiceCount => frag_class(input_fragment@) is BadCount,
                RErr::InvalidDiceSides => frag_class(input_fragment@) is BadSides,
                RErr::NumericOverflow => (frag_class(input_fragment@) matches FragClass::Dice(c, sd)
                    && c * sd > i32::MAX),
            },
        },
        frag_class(input_fragment@) is Literal ==> r is Ok,
        (frag_class(input_fragment@) matches FragClass::Dice(c, sd) && c * sd <= i32::MAX) ==> r
            is Ok,
{
    match parse_i32(input_fragment) {
        Some(v) => {
            let current_roll = DiceRoll { sides: 0, result: v };
            let mut dice_rolls: Vec<DiceRoll> = Vec::new();
            dice_rolls.push(current_roll);
            proof {
                assert forall|k: int| 0 <= k <= dice_rolls@.len() implies i32::MIN <= #[trigger] sum_results(
                    dice_rolls@.take(k),
                ) <= i32::MAX by {
                    if k == 0 {
                        assert(dice_rolls@.take(k) =~= Seq::<DiceRoll>::empty());
                        assert(sum_results(dice_rolls@.take(k)) == 0);
                    } else {
                        assert(dice_rolls@.take(k) =~= dice_rolls@);
                        assert(dice_rolls@.drop_last() =~= Seq::<DiceRoll>::empty());
                        assert(sum_results(dice_rolls@.drop_last()) == 0);
                        assert(dice_rolls@.last() == current_roll);
                        assert(sum_results(dice_rolls@.take(k)) == v as int);
                    }
                }
            }
            let mut formula: Vec<String> = Vec::new();
            formula.push(crate::text::i32_to_dec_string(v));
            let mut rolls_formula: Vec<String> = Vec::new();
            rolls_formula.push(String::from_str(input_fragment));
            let dr = DiceRolls { rolls: dice_rolls, formula, rolls_formula };
            proof {
                assert(dr.rolls_view().drop_last() =~= Seq::<DiceRoll>::empty());
                assert(sum_results(dr.rolls_view().drop_last()) == 0);
                assert(dr.rolls_view().last() == current_roll);
                assert(sum_results(dr.rolls_view()) == v as int);
                assert(dr.formula_view() =~= seq![dec_str_of(v as int)]);
                assert(dr.rolls_formula_view() =~= seq![input_fragment@]);
            }
            Ok(dr)
        },
        None => {
            let len = input_fragment.unicode_len();
            let mut dice_count_str = String::new();
            let mut dice_sides_str = String::new();
            let mut d_switch: bool = false;
            let ghost mut dpos: int = 0;
            let mut i: usize = 0;
            while i < len
                invariant
                    0 <= i <= len,
                    len == input_fragment@.len(),
                    !d_switch ==> {
                        &&& forall|j: int| 0 <= j < i ==> input_fragment@[j] != 'd'
                        &&& dice_count_str@ == input_fragment@.take(i as int)
                        &&& dice_sides_str@ == Seq::<char>::empty()
                    },
                    d_switch ==> {
                        &&& 0 <= dpos < i
                        &&& input_fragment@[dpos] == 'd'
                        &&& forall|j: int| 0 <= j < dpos ==> input_fragment@[j] != 'd'
                        &&& dice_count_str@ == (if dpos == 0 {
                            seq!['1']
                        } else {
                            input_fragment@.take(dpos)
                        })
                        &&& dice_sides_str@ == input_fragment@.subrange(dpos + 1, i as int)
                    },
                decreases len - i,
            {
                let c = input_fragment.get_char(i);
                if !d_switch {
                    if c == 'd' {
                        d_switch = true;
                        proof {
                            dpos = i as int;
                        }
                        if i == 0 {
                            push_char(&mut dice_count_str, '1');
                            assert(dice_count_str@ =~= seq!['1']);
                        }
                        assert(dice_sides_str@ =~= input_fragment@.subrange(dpos + 1, i + 1 as int));
                    } else {
                        push_char(&mut dice_count_str, c);
                        assert(dice_count_str@ =~= input_fragment@.take(i + 1 as int));
                    }
                } else {
                    push_char(&mut dice_sides_str, c);
                    assert(dice_sides_str@ =~= input_fragment@.subrange(dpos + 1, i + 1 as int));
                }
                i = i + 1;
            }
            proof {
                if d_switch {
                    lemma_find_char_at(input_fragment@, 'd', dpos);
                    assert(input_fragment@.subrange(dpos + 1, len as int) =~= input_fragment@.skip(
                        dpos + 1,
                    ));
                } else {
                    lemma_find_char_none(input_fragment@, 'd');
                    assert(input_fragment@.take(len as int) =~= input_fragment@);
                }
                assert(dice_count_str@ == frag_parts(input_fragment@).0);
                assert(dice_sides_str@ == frag_parts(input_fragment@).1);
            }
            let dice_count = match parse_i32(dice_count_str.as_str()) {
                Some(c) => c,
                None => {
                    return Err(RErr::InvalidDiceCount);
                },
            };
            if dice_count < 1 {
                return Err(RErr::InvalidDiceCount);
            }
            let dice_sides = match parse_i32(dice_sides_str.as_str()) {
                Some(s) => {
                    if s < 1 {
                        return Err(RErr::InvalidDiceSides);
                    }
                    s
                },
                None => {
                    if crate::tokens::match_token(dice_sides_str.as_str()) == -3 {
                        100
                    } else {
                        return Err(RErr::InvalidDiceSides);
                    }
                },
            };
            assert(frag_class(input_fragment@) == FragClass::Dice(
                dice_count as int,
                dice_sides as int,
            ));
            let mut dice_rolls: Vec<DiceRoll> = Vec::new();
            let mut sum: i32 = 0;
            let mut k: i32 = 0;
            while k < dice_count
                invariant
                    0 <= k <= dice_count,
                    1 <= dice_count,
                    1 <= dice_sides,
                    dice_rolls@.len() == k as int,
                    forall|j: int|
                        0 <= j < dice_rolls@.len() ==> dice_rolls@[j].sides == dice_sides && 1
                            <= dice_rolls@[j].result <= dice_sides,
                    sum as int == sum_results(dice_rolls@),
                    k as int <= sum as int,
                    sum as int <= k as int * dice_sides as int,
                decreases dice_count - k,
            {
                let res = roll_die(dice_sides);
                let w = sum as i64 + res as i64;
                proof {
                    assert(sum as int + res as int <= (k as int + 1) * dice_sides as int)
                        by (nonlinear_arith)
                        requires
                            sum as int <= k as int * dice_sides as int,
                            res as int <= dice_sides as int,
                    ;
                }
                if w > i32::MAX as i64 {
                    proof {
                        assert((k as int + 1) * dice_sides as int <= dice_count as int
                            * dice_sides as int) by (nonlinear_arith)
                            requires
                                k as int + 1 <= dice_count as int,
                                dice_sides as int >= 1,
                        ;
                    }
                    return Err(RErr::NumericOverflow);
                }
                sum = w as i32;
                let ghost prev = dice_rolls@;
                dice_rolls.push(DiceRoll { sides: dice_sides, result: res });
                proof {
                    assert(dice_rolls@.drop_last() =~= prev);
                }
                k = k + 1;
            }
            proof {
                assert forall|j: int| 0 <= j <= dice_rolls@.len() implies i32::MIN <= #[trigger] sum_results(
                    dice_rolls@.take(j),
                ) <= i32::MAX by {
                    lemma_sum_take_le(dice_rolls@, j);
                    assert(forall|m: int| 0 <= m < j ==> dice_rolls@.take(j)[m] == dice_rolls@[m]);
                    lemma_sum_nonneg(dice_rolls@.take(j));
                }
            }
            let mut formula: Vec<String> = Vec::new();
            formula.push(crate::text::i32_to_dec_string(sum));
            let mut rolls_formula: Vec<String> = Vec::new();
            rolls_formula.push(String::from_str(input_fragment));
            let dr = DiceRolls { rolls: dice_rolls, formula, rolls_formula };
            proof {
                assert(dr.formula_view() =~= seq![dec_str_of(sum as int)]);
                assert(dr.rolls_formula_view() =~= seq![input_fragment@]);
            }
            Ok(dr)
        },
    }
}

proof fn lemma_group_partial_bounds(frag: Seq<char>, outs: Seq<DiceRoll>, num_tok: Seq<char>, j: int)
    requires
        fragment_resolved(frag, outs, num_tok),
        0 <= j <= outs.len(),
    ensures
        sum_results(outs.take(j)) >= (if sum_results(outs) < 0 {
            sum_results(outs)
        } else {
            0
        }),
        sum_results(outs.take(j)) <= (if sum_results(outs) > 0 {
            sum_results(outs)
        } else {
            0
        }),
{
    match frag_class(frag) {
        FragClass::Literal(v) => {
            if j == 0 {
                assert(outs.take(j) =~= Seq::<DiceRoll>::empty());
            } else {
                assert(outs.take(j) =~= outs);
            }
        },
        FragClass::Dice(c, sd) => {
            lemma_sum_take_le(outs, j);
            assert(forall|m: int| 0 <= m < j ==> outs.take(j)[m] == outs[m]);
            lemma_sum_nonneg(outs.take(j));
            lemma_sum_nonneg(outs);
        },
        FragClass::BadCount => {},
        FragClass::BadSides => {},
    }
}

proof fn lemma_fragment_resolved_wf(frag: Seq<char>, outs: Seq<DiceRoll>, num_tok: Seq<char>)
    requires
        fragment_resolved(frag, outs, num_tok),
    ensures
        frag_wf(frag),
{
}

/// Resolves every operand fragment of a postfix sequence, keeping operators
/// in place: the result carries the rolled outcomes, the numeric postfix
/// formula, and the original notation postfix formula.
#[verifier::rlimit(100)]
#[verifier::spinoff_prover]
fn resolve_rolls_vector(rolls_vector: Vec<String>) -> (r: Result<DiceRolls, RErr>)
    ensures
        match r {
            Ok(dr) => resolved_from(
                rolls_vector.deep_view(),
                dr.rolls_view(),
                dr.formula_view(),
                dr.rolls_formula_view(),
            ),
            Err(e) => resolve_error_allowed(rolls_vector.deep_view(), e),
        },
        all_frags_wf(rolls_vector.deep_view()) && no_overflow_possible(rolls_vector.deep_view())
            ==> r is Ok,
{
    let ghost input = rolls_vector.deep_view();
    let mut formula_vector: Vec<String> = Vec::new();
    let mut formula_vector_with_rolls: Vec<String> = Vec::new();
    let mut dice_rolls: Vec<DiceRoll> = Vec::new();
    let ghost mut groups: Seq<Seq<DiceRoll>> = Seq::empty();
    let mut running: i32 = 0;
    let n = rolls_vector.len();
    let mut idx: usize = 0;
    proof {
        assert(input.take(0) =~= Seq::<Seq<char>>::empty());
        assert(formula_vector.deep_view() =~= Seq::<Seq<char>>::empty());
        assert(formula_vector_with_rolls.deep_view() =~= Seq::<Seq<char>>::empty());
    }
    while idx < n
        invariant
            0 <= idx <= n,
            n == rolls_vector@.len(),
            input == rolls_vector.deep_view(),
            groups.len() == idx as int,
            formula_vector_with_rolls.deep_view() == input.take(idx as int),
            formula_vector.deep_view().len() == idx as int,
            forall|i: int|
                0 <= i < idx ==> #[trigger] group_ok(
                    input[i],
                    groups[i],
                    formula_vector.deep_view()[i],
                ),
            dice_rolls@ == concat_all(groups),
            running as int == sum_results(dice_rolls@),
            prefix_sums_fit(dice_rolls@),
            min_total(input.take(idx as int)) <= running as int <= max_total(input.take(idx as int)),
        decreases n - idx,
    {
        let ghost out_before = formula_vector.deep_view();
        let ghost rolls_before = dice_rolls@;
        proof {
            assert(input.take(idx + 1).drop_last() =~= input.take(idx as int));
            assert(input.take(idx + 1).last() == input[idx as int]);
            assert(input[idx as int] == rolls_vector@[idx as int]@);
        }
        let element = &rolls_vector[idx];
        let prec = match_token(element.as_str());
        if prec > 0 {
            formula_vector.push(element.clone());
            formula_vector_with_rolls.push(element.clone());
            proof {
                let g0 = groups;
                groups = groups.push(Seq::<DiceRoll>::empty());
                assert(groups.drop_last() =~= g0);
                assert(concat_all(g0) + Seq::<DiceRoll>::empty() =~= concat_all(g0));
                assert(formula_vector.deep_view() =~= out_before.push(element@));
                assert(formula_vector_with_rolls.deep_view() =~= input.take(idx + 1));
                assert(group_ok(
                    input[idx as int],
                    groups[idx as int],
                    formula_vector.deep_view()[idx as int],
                ));
                assert(forall|i: int|
                    0 <= i < idx ==> formula_vector.deep_view()[i] == out_before[i]);
                assert(min_total(input.take(idx + 1)) == min_total(input.take(idx as int)));
                assert(max_total(input.take(idx + 1)) == max_total(input.take(idx as int)));
            }
        } else {
            match resolve_roll_fragment(element.as_str()) {
                Ok(frag_rolls) => {
                    let s = frag_rolls.get_sum_of_rolls();
                    let ghost group = frag_rolls.rolls_view();
                    proof {
                        // the fragment's total lies between its least and
                        // greatest possible totals
                        match frag_class(input[idx as int]) {
                            FragClass::Literal(v) => {
                                assert(group.drop_last() =~= Seq::<DiceRoll>::empty());
                                assert(sum_results(group.drop_last()) == 0);
                                assert(group.last() == group[0]);
                                assert(s as int == v);
                            },
                            FragClass::Dice(c, sd) => {
                                lemma_sum_bounds(group, sd);
                            },
                            FragClass::BadCount => {},
                            FragClass::BadSides => {},
                        }
                        assert(frag_min(input[idx as int]) <= s as int <= frag_max(
                            input[idx as int],
                        ));
                        assert(min_total(input.take(idx + 1)) == min_total(input.take(idx as int))
                            + frag_min(input[idx as int]));
                        assert(max_total(input.take(idx + 1)) == max_total(input.take(idx as int))
                            + frag_max(input[idx as int]));
                    }
                    let w = running as i64 + s as i64;
                    if w < i32::MIN as i64 || w > i32::MAX as i64 {
                        proof {
                            if w > i32::MAX as i64 {
                                assert(max_total(input.take(idx + 1)) > i32::MAX);
                            } else {
                                assert(min_total(input.take(idx + 1)) < i32::MIN);
                            }
                            assert(!no_overflow_possible(input));
                        }
                        return Err(RErr::NumericOverflow);
                    }
                    running = w as i32;
                    formula_vector.push(crate::text::i32_to_dec_string(s));
                    formula_vector_with_rolls.push(element.clone());
                    let mut fr = frag_rolls.get_rolls();
                    dice_rolls.append(&mut fr);
                    proof {
                        let g0 = groups;
                        groups = groups.push(group);
                        assert(groups.drop_last() =~= g0);
                        assert(dice_rolls@ == rolls_before + group);
                        lemma_sum_concat(rolls_before, group);
                        assert(formula_vector.deep_view() =~= out_before.push(
                            dec_str_of(s as int),
                        ));
                        assert(formula_vector_with_rolls.deep_view() =~= input.take(idx + 1));
                        assert(group_ok(
                            input[idx as int],
                            groups[idx as int],
                            formula_vector.deep_view()[idx as int],
                        ));
                        assert(forall|i: int|
                            0 <= i < idx ==> formula_vector.deep_view()[i] == out_before[i]);
                        // every prefix of the extended roll list still sums
                        // within range
                        assert forall|k: int| 0 <= k <= dice_rolls@.len() implies i32::MIN
                            <= #[trigger] sum_results(dice_rolls@.take(k)) <= i32::MAX by {
                            if k <= rolls_before.len() {
                                assert(dice_rolls@.take(k) =~= rolls_before.take(k));
                            } else {
                                let j = k - rolls_before.len();
                                assert(dice_rolls@.take(k) =~= rolls_before + group.take(j));
                                lemma_sum_concat(rolls_before, group.take(j));
                                lemma_group_partial_bounds(
                                    input[idx as int],
                                    group,
                                    dec_str_of(s as int),
                                    j,
                                );
                            }
                        }
                    }
                },
                Err(e) => {
                    proof {
                        assert forall|j: int|
                            0 <= j < idx implies classify(#[trigger] input.take(idx as int)[j]) > 0
                            || frag_wf(input.take(idx as int)[j]) by {
                            assert(input.take(idx as int)[j] == input[j]);
                            assert(group_ok(input[j], groups[j], formula_vector.deep_view()[j]));
                            if classify(input[j]) <= 0 {
                                lemma_fragment_resolved_wf(
                                    input[j],
                                    groups[j],
                                    formula_vector.deep_view()[j],
                                );
                            }
                        }
                        assert(all_frags_wf(input.take(idx as int)));
                        match e {
                            RErr::NumericOverflow => {
                                assert(classify(input[idx as int]) <= 0 && frag_max(
                                    input[idx as int],
                                ) > i32::MAX);
                                assert(!no_overflow_possible(input));
                            },
                            RErr::InvalidDiceCount => {},
                            RErr::InvalidDiceSides => {},
                        }
                    }
                    return Err(e);
                },
            }
        }
        idx = idx + 1;
    }
    proof {
        assert(input.take(n as int) =~= input);
    }
    let dr = DiceRolls {
        rolls: dice_rolls,
        formula: formula_vector,
        rolls_formula: formula_vector_with_rolls,
    };
    proof {
        assert(resolves_with(
            rolls_vector.deep_view(),
            dr.rolls_view(),
            dr.formula_view(),
            dr.rolls_formula_view(),
            groups,
        ));
        assert(resolved_from(
            rolls_vector.deep_view(),
            dr.rolls_view(),
            dr.formula_view(),
            dr.rolls_formula_view(),
        ));
    }
    Ok(dr)
}

/// Rolls the dice of a formula: the formula is trimmed, converted to postfix
/// order, and each operand fragment is resolved to its rolled value.
pub fn roll(input: String) -> (r: Result<DiceRolls, RollError>)
    ensures
        match r {
            Ok(dr) => resolved_from(
                crate::rpn::rpn_of(crate::text::trim_spec(input@)),
                dr.rolls_view(),
                dr.formula_view(),
                dr.rolls_formula_view(),
            ),
            Err(e) => resolve_error_allowed(crate::rpn::rpn_of(crate::text::trim_spec(input@)), e),
        },
        all_frags_wf(crate::rpn::rpn_of(crate::text::trim_spec(input@))) && no_overflow_possible(
            crate::rpn::rpn_of(crate::text::trim_spec(input@)),
        ) ==> r is Ok,
{
    let formula_vector = parse_into_rpn(crate::text::trim_ws(input.as_str()));
    resolve_rolls_vector(formula_vector)
}

} // verus!
