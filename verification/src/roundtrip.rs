//! The round trip between postfix sequences and their infix renderings: a
//! rendered formula, converted back to postfix, reproduces its tokens.
use vstd::prelude::*;

use crate::errors::RenderError;
use crate::infix::infix_of;
use crate::infix::joined;
use crate::infix::render_step;
use crate::infix::render_tokens;
use crate::rpn::pop_to_group;
use crate::rpn::rpn_of;
use crate::rpn::shunt_feed;
use crate::rpn::shunt_finish;
use crate::rpn::shunt_init;
use crate::rpn::shunt_step;
use crate::rpn::singletons;
use crate::rpn::strip;
use crate::rpn::ShuntState;
use crate::tokens::classify;
use crate::tokens::classify_char;

verus! {

/// The shape of a fully parenthesized rendering: an operand fragment, or an
/// operator joining two rendered operands.
pub enum RenderTree {
    Operand(Seq<char>),
    Node(Box<RenderTree>, char, Box<RenderTree>),
}

/// The postfix token sequence a rendering stands for.
pub open spec fn tree_postfix(e: RenderTree) -> Seq<Seq<char>>
    decreases e,
{
    match e {
        RenderTree::Operand(s) => seq![s],
        RenderTree::Node(l, op, r) => tree_postfix(*l) + tree_postfix(*r) + seq![seq![op]],
    }
}

/// The rendered infix string, as the renderer builds it.
pub open spec fn tree_render(e: RenderTree) -> Seq<char>
    decreases e,
{
    match e {
        RenderTree::Operand(s) => s,
        RenderTree::Node(l, op, r) => joined(tree_render(*l), seq![op], tree_render(*r)),
    }
}

/// The rendered string with its spaces removed, as the converter sees it.
pub open spec fn tree_render_stripped(e: RenderTree) -> Seq<char>
    decreases e,
{
    match e {
        RenderTree::Operand(s) => s,
        RenderTree::Node(l, op, r) => seq!['('] + tree_render_stripped(*l) + seq![op]
            + tree_render_stripped(*r) + seq![')'],
    }
}

/// A clean operand fragment: nonempty, out of operand characters alone (the
/// percent marker among them) with no whitespace or underscore, so the
/// converter re-tokenizes it as one fragment.
pub open spec fn clean_operand(s: Seq<char>) -> bool {
    s.len() > 0 && forall|i: int|
        0 <= i < s.len() ==> (classify_char(#[trigger] s[i]) == 0 || classify_char(s[i]) == -3)
            && !crate::text::is_ws_char(s[i]) && s[i] != '_'
}

/// A clean token: an operator symbol, or a clean operand fragment.
pub open spec fn clean_token(t: Seq<char>) -> bool {
    classify(t) > 0 || clean_operand(t)
}

/// A clean rendering: every operand fragment in it is clean.
pub open spec fn tree_clean(e: RenderTree) -> bool
    decreases e,
{
    match e {
        RenderTree::Operand(s) => clean_operand(s),
        RenderTree::Node(l, op, r) => classify_char(op) > 0 && tree_clean(*l) && tree_clean(*r),
    }
}

proof fn lemma_strip_concat(a: Seq<char>, b: Seq<char>)
    ensures
        strip(a + b) == strip(a) + strip(b),
    decreases b.len(),
{
    if b.len() == 0 {
        assert(a + b =~= a);
        assert(strip(a) + strip(b) =~= strip(a));
    } else {
        assert((a + b).drop_last() =~= a + b.drop_last());
        assert((a + b).last() == b.last());
        lemma_strip_concat(a, b.drop_last());
        if crate::text::is_ws_char(b.last()) || b.last() == '_' {
        } else {
            assert(strip(a) + strip(b) =~= (strip(a) + strip(b.drop_last())).push(b.last()));
        }
    }
}

proof fn lemma_strip_keeps_clean(s: Seq<char>)
    requires
        forall|i: int| 0 <= i < s.len() ==> !crate::text::is_ws_char(#[trigger] s[i]) && s[i] != '_',
    ensures
        strip(s) == s,
    decreases s.len(),
{
    if s.len() > 0 {
        assert(forall|i: int|
            0 <= i < s.len() - 1 ==> s.drop_last()[i] == s[i]);
        lemma_strip_keeps_clean(s.drop_last());
        assert(strip(s) =~= s.drop_last().push(s.last()));
        assert(s.drop_last().push(s.last()) =~= s);
    }
}

proof fn lemma_strip_one(c: char)
    requires
        !crate::text::is_ws_char(c),
        c != '_',
    ensures
        strip(seq![c]) == seq![c],
{
    assert(seq![c].drop_last() =~= Seq::<char>::empty());
    assert(seq![c].last() == c);
    assert(strip(seq![c]) =~= strip(Seq::<char>::empty()).push(c));
    assert(strip(seq![c]) =~= seq![c]);
}

proof fn lemma_strip_render(e: RenderTree)
    requires
        tree_clean(e),
    ensures
        strip(tree_render(e)) == tree_render_stripped(e),
    decreases e,
{
    match e {
        RenderTree::Operand(s) => {
            lemma_strip_keeps_clean(s);
        },
        RenderTree::Node(l, op, r) => {
            lemma_strip_render(*l);
            lemma_strip_render(*r);
            let b = tree_render(*l);
            let a = tree_render(*r);
            let rendered = joined(b, seq![op], a);
            assert(rendered =~= (seq!['(', ' '] + b) + ((seq![' '] + seq![op]) + ((seq![' '] + a)
                + seq![' ', ')'])));
            lemma_strip_concat(seq!['(', ' '] + b, (seq![' '] + seq![op]) + ((seq![' '] + a)
                + seq![' ', ')']));
            lemma_strip_concat(seq![' '] + seq![op], (seq![' '] + a) + seq![' ', ')']);
            lemma_strip_concat(seq![' '] + a, seq![' ', ')']);
            lemma_strip_concat(seq!['(', ' '], b);
            lemma_strip_concat(seq![' '], seq![op]);
            lemma_strip_concat(seq![' '], a);
            assert(strip(seq!['(', ' ']) =~= seq!['(']) by {
                let t = seq!['(', ' '];
                assert(t.last() == ' ' && t.drop_last() =~= seq!['(']);
                lemma_strip_one('(');
            }
            assert(strip(seq![' ']) =~= Seq::<char>::empty()) by {
                let t = seq![' '];
                assert(t.len() == 1);
                assert(t.last() == ' ' && t.drop_last() =~= Seq::<char>::empty());
                assert(strip(t) == strip(t.drop_last()));
                assert(strip(Seq::<char>::empty()) =~= Seq::<char>::empty());
            }
            assert(strip(seq![' ', ')']) =~= seq![')']) by {
                let t = seq![' ', ')'];
                assert(t.last() == ')' && t.drop_last() =~= seq![' ']);
                assert(strip(seq![' ']) =~= Seq::<char>::empty());
            }
            assert(strip(seq![op]) =~= seq![op]) by {
                assert(classify_char(op) > 0);
                assert(!crate::text::is_ws_char(op) && op != '_');
                lemma_strip_one(op);
            }
            assert(strip(rendered) =~= tree_render_stripped(e));
        },
    }
}

proof fn lemma_feed_concat(st: ShuntState, a: Seq<char>, b: Seq<char>)
    ensures
        shunt_feed(st, a + b) == shunt_feed(shunt_feed(st, a), b),
    decreases b.len(),
{
    if b.len() == 0 {
        assert(a + b =~= a);
    } else {
        assert((a + b).drop_last() =~= a + b.drop_last());
        assert((a + b).last() == b.last());
        lemma_feed_concat(st, a, b.drop_last());
    }
}

proof fn lemma_feed_operand_chars(st: ShuntState, s: Seq<char>)
    requires
        s.len() > 0,
        forall|i: int|
            0 <= i < s.len() ==> classify_char(#[trigger] s[i]) == 0 || classify_char(s[i]) == -3,
    ensures
        shunt_feed(st, s) == (ShuntState {
            output: st.output,
            acc: st.acc + s,
            stack: st.stack,
            lorb: false,
        }),
    decreases s.len(),
{
    reveal_with_fuel(shunt_feed, 3);
    assert(s.last() == s[s.len() - 1]);
    assert(classify_char(s.last()) == 0 || classify_char(s.last()) == -3);
    if s.len() == 1 {
        assert(s.drop_last() =~= Seq::<char>::empty());
        assert(shunt_feed(st, s) == shunt_step(st, s.last()));
        assert(st.acc.push(s.last()) =~= st.acc + s);
        assert(shunt_feed(st, s) =~= (ShuntState {
            output: st.output,
            acc: st.acc + s,
            stack: st.stack,
            lorb: false,
        }));
    } else {
        assert(forall|i: int| 0 <= i < s.len() - 1 ==> s.drop_last()[i] == s[i]);
        lemma_feed_operand_chars(st, s.drop_last());
        assert((st.acc + s.drop_last()).push(s.last()) =~= st.acc + s);
        assert(shunt_feed(st, s) =~= (ShuntState {
            output: st.output,
            acc: st.acc + s,
            stack: st.stack,
            lorb: false,
        }));
    }
}

proof fn lemma_step_open(st: ShuntState)
    ensures
        shunt_step(st, '(') == (ShuntState {
            output: st.output,
            acc: st.acc,
            stack: st.stack.push('('),
            lorb: false,
        }),
{
}

proof fn lemma_step_operator_flush(st: ShuntState, op: char)
    requires
        classify_char(op) > 0,
        st.acc.len() > 0,
        st.stack.len() > 0,
        classify_char(st.stack.last()) == -1,
    ensures
        shunt_step(st, op) == (ShuntState {
            output: st.output.push(st.acc),
            acc: Seq::<char>::empty(),
            stack: st.stack.push(op),
            lorb: st.lorb,
        }),
{
    assert(crate::rpn::pop_ge(st.stack, classify_char(op)) == (Seq::<char>::empty(), st.stack));
    assert(singletons(Seq::<char>::empty()) =~= Seq::<Seq<char>>::empty());
    assert(st.output.push(st.acc) + Seq::<Seq<char>>::empty() =~= st.output.push(st.acc));
}

proof fn lemma_step_operator_after_group(st: ShuntState, op: char)
    requires
        classify_char(op) > 0,
        st.acc.len() == 0,
        st.lorb,
    ensures
        shunt_step(st, op) == (ShuntState {
            output: st.output,
            acc: st.acc,
            stack: st.stack.push(op),
            lorb: st.lorb,
        }),
{
}

proof fn lemma_step_close(st: ShuntState, base: Seq<char>, op: char)
    requires
        classify_char(op) > 0,
        st.stack == base.push('(').push(op),
    ensures
        st.acc.len() > 0 ==> shunt_step(st, ')') == (ShuntState {
            output: st.output.push(st.acc).push(seq![op]),
            acc: Seq::<char>::empty(),
            stack: base,
            lorb: true,
        }),
        st.acc.len() == 0 ==> shunt_step(st, ')') == (ShuntState {
            output: st.output.push(seq![op]),
            acc: st.acc,
            stack: base,
            lorb: st.lorb,
        }),
{
    assert(classify_char(')') == -2);
    assert(pop_to_group(st.stack) == (seq![op], base)) by {
        assert(st.stack.last() == op);
        assert(st.stack.drop_last() =~= base.push('('));
        assert(base.push('(').last() == '(');
        assert(base.push('(').drop_last() =~= base);
        assert(pop_to_group(base.push('(')) == (Seq::<char>::empty(), base));
        assert(seq![op] + Seq::<char>::empty() =~= seq![op]);
    }
    assert(singletons(seq![op]) =~= seq![seq![op]]);
    if st.acc.len() > 0 {
        assert(st.output.push(st.acc) + seq![seq![op]] =~= st.output.push(st.acc).push(seq![op]));
    } else {
        assert(st.output + seq![seq![op]] =~= st.output.push(seq![op]));
    }
}

#[verifier::rlimit(100)]
#[verifier::spinoff_prover]
proof fn lemma_shunt_tree(st: ShuntState, e: RenderTree)
    requires
        tree_clean(e),
        st.acc.len() == 0,
    ensures
        e matches RenderTree::Operand(s) ==> shunt_feed(st, tree_render_stripped(e)) == (ShuntState {
            output: st.output,
            acc: s,
            stack: st.stack,
            lorb: false,
        }),
        e is Node ==> shunt_feed(st, tree_render_stripped(e)) == (ShuntState {
            output: st.output + tree_postfix(e),
            acc: Seq::<char>::empty(),
            stack: st.stack,
            lorb: true,
        }),
    decreases e,
{
    match e {
        RenderTree::Operand(s) => {
            lemma_feed_operand_chars(st, s);
            assert(st.acc + s =~= s);
        },
        RenderTree::Node(l, op, r) => {
            reveal_with_fuel(shunt_feed, 2);
            reveal_with_fuel(tree_clean, 2);
            assert(tree_clean(*l) && tree_clean(*r) && classify_char(op) > 0);
            let rl = tree_render_stripped(*l);
            let rr = tree_render_stripped(*r);
            let whole = tree_render_stripped(e);
            assert(st.acc =~= Seq::<char>::empty());
            assert(whole =~= ((seq!['('] + rl) + seq![op]) + (rr + seq![')']));

            // opening group symbol: pushed onto the stack
            let st1 = shunt_feed(st, seq!['(']);
            assert(seq!['('].drop_last() =~= Seq::<char>::empty());
            assert(seq!['('].last() == '(');
            assert(st1 == shunt_step(st, '('));
            lemma_step_open(st);

            // left operand rendering
            lemma_feed_concat(st, seq!['('], rl);
            let st2 = shunt_feed(st1, rl);
            lemma_shunt_tree(st1, *l);

            // the operator: pushed above the open group, flushing a pending
            // operand fragment
            lemma_feed_concat(st, seq!['('] + rl, seq![op]);
            assert(seq![op].drop_last() =~= Seq::<char>::empty());
            assert(seq![op].last() == op);
            let st3 = shunt_feed(st2, seq![op]);
            assert(st3 == shunt_step(st2, op));
            let out3 = st.output + tree_postfix(*l);
            let stack3 = st.stack.push('(').push(op);
            match *l {
                RenderTree::Operand(sl) => {
                    assert(st2 == ShuntState {
                        output: st.output,
                        acc: sl,
                        stack: st.stack.push('('),
                        lorb: false,
                    });
                    assert(clean_operand(sl));
                    assert(sl.len() > 0);
                    lemma_step_operator_flush(st2, op);
                    assert(st.output.push(sl) =~= out3);
                    assert(st3 =~= (ShuntState {
                        output: out3,
                        acc: Seq::<char>::empty(),
                        stack: stack3,
                        lorb: false,
                    }));
                },
                RenderTree::Node(_, _, _) => {
                    assert(st2 == ShuntState {
                        output: st.output + tree_postfix(*l),
                        acc: Seq::<char>::empty(),
                        stack: st.stack.push('('),
                        lorb: true,
                    });
                    lemma_step_operator_after_group(st2, op);
                    assert(st3 =~= (ShuntState {
                        output: out3,
                        acc: Seq::<char>::empty(),
                        stack: stack3,
                        lorb: true,
                    }));
                },
            }
            assert(st3.acc.len() == 0 && st3.output == out3 && st3.stack == stack3);

            // right operand rendering
            lemma_feed_concat(st, (seq!['('] + rl) + seq![op], rr);
            let st4 = shunt_feed(st3, rr);
            lemma_shunt_tree(st3, *r);

            // closing group symbol: flushes and pops the operator, dropping
            // the group symbol
            lemma_feed_concat(st, ((seq!['('] + rl) + seq![op]) + rr, seq![')']);
            assert((((seq!['('] + rl) + seq![op]) + rr) + seq![')'] =~= whole);
            assert(seq![')'].drop_last() =~= Seq::<char>::empty());
            assert(seq![')'].last() == ')');
            let st5 = shunt_feed(st4, seq![')']);
            assert(st5 == shunt_step(st4, ')'));
            match *r {
                RenderTree::Operand(sr) => {
                    assert(st4 == ShuntState {
                        output: out3,
                        acc: sr,
                        stack: stack3,
                        lorb: false,
                    });
                    assert(clean_operand(sr));
                    assert(sr.len() > 0);
                    lemma_step_close(st4, st.stack, op);
                    assert(out3.push(sr).push(seq![op]) =~= st.output + tree_postfix(e));
                },
                RenderTree::Node(_, _, _) => {
                    assert(st4 == ShuntState {
                        output: out3 + tree_postfix(*r),
                        acc: Seq::<char>::empty(),
                        stack: stack3,
                        lorb: true,
                    });
                    lemma_step_close(st4, st.stack, op);
                    assert((out3 + tree_postfix(*r)).push(seq![op]) =~= st.output + tree_postfix(
                        e,
                    ));
                },
            }
            assert(st5 =~= (ShuntState {
                output: st.output + tree_postfix(e),
                acc: Seq::<char>::empty(),
                stack: st.stack,
                lorb: true,
            }));
            assert(shunt_feed(st, whole) == st5);
        },
    }
}

/// The postfix sequences of a stack of renderings, concatenated bottom-up.
pub open spec fn forest_postfix(es: Seq<RenderTree>) -> Seq<Seq<char>>
    decreases es.len(),
{
    if es.len() == 0 {
        Seq::empty()
    } else {
        forest_postfix(es.drop_last()) + tree_postfix(es.last())
    }
}

proof fn lemma_render_to_trees(tokens: Seq<Seq<char>>, stack: Seq<Seq<char>>) -> (es: Seq<
    RenderTree,
>)
    requires
        forall|i: int| 0 <= i < tokens.len() ==> clean_token(#[trigger] tokens[i]),
        render_tokens(tokens, Seq::empty()) == Ok::<Seq<Seq<char>>, RenderError>(stack),
    ensures
        es.len() == stack.len(),
        forall|i: int|
            0 <= i < es.len() ==> tree_clean(#[trigger] es[i]) && stack[i] == tree_render(es[i]),
        forest_postfix(es) == tokens,
    decreases tokens.len(),
{
    if tokens.len() == 0 {
        let es = Seq::<RenderTree>::empty();
        assert(stack =~= Seq::<Seq<char>>::empty());
        assert(forest_postfix(es) =~= tokens);
        es
    } else {
        let pre = tokens.drop_last();
        let tok = tokens.last();
        assert(forall|i: int| 0 <= i < pre.len() ==> pre[i] == tokens[i]);
        assert(clean_token(tok));
        let st0 = match render_tokens(pre, Seq::<Seq<char>>::empty()) {
            Ok(st) => st,
            Err(_) => arbitrary(),
        };
        assert(render_tokens(pre, Seq::empty()) == Ok::<Seq<Seq<char>>, RenderError>(st0));
        assert(render_step(st0, tok) == Ok::<Seq<Seq<char>>, RenderError>(stack));
        let es0 = lemma_render_to_trees(pre, st0);
        assert(es0.len() == st0.len());
        assert(forest_postfix(es0) == pre);
        if classify(tok) > 0 {
            let n = st0.len() as int;
            assert(n >= 2);
            let a = st0[n - 1];
            let b = st0[n - 2];
            assert(a == st0.last());
            assert(tree_clean(es0[n - 2]) && st0[n - 2] == tree_render(es0[n - 2]));
            assert(tree_clean(es0[n - 1]) && st0[n - 1] == tree_render(es0[n - 1]));
            let node = RenderTree::Node(Box::new(es0[n - 2]), tok[0], Box::new(es0[n - 1]));
            let es = es0.take(n - 2).push(node);
            assert(tok.len() == 1);
            assert(tok =~= seq![tok[0]]);
            assert(classify_char(tok[0]) == classify(tok));
            assert(tree_clean(node));
            assert(tree_render(node) == joined(b, tok, a)) by {
                assert(tree_render(es0[n - 2]) == b && tree_render(es0[n - 1]) == a);
            }
            assert(stack == st0.take(n - 2).push(joined(b, tok, a)));
            assert forall|i: int| 0 <= i < es.len() implies tree_clean(#[trigger] es[i])
                && stack[i] == tree_render(es[i]) by {
                if i < n - 2 {
                    assert(es[i] == es0[i] && stack[i] == st0[i]);
                }
            }
            assert(forest_postfix(es) =~= tokens) by {
                assert(es.drop_last() =~= es0.take(n - 2));
                assert(es.last() == node);
                assert(forest_postfix(es) == forest_postfix(es0.take(n - 2)) + tree_postfix(node));
                assert(es0.drop_last() =~= es0.take(n - 1));
                assert(es0.take(n - 1).drop_last() =~= es0.take(n - 2));
                assert(es0.take(n - 1).last() == es0[n - 2]);
                assert(forest_postfix(es0) == forest_postfix(es0.take(n - 1)) + tree_postfix(
                    es0[n - 1],
                ));
                assert(forest_postfix(es0.take(n - 1)) == forest_postfix(es0.take(n - 2))
                    + tree_postfix(es0[n - 2]));
                assert(tree_postfix(node) == tree_postfix(es0[n - 2]) + tree_postfix(es0[n - 1])
                    + seq![seq![tok[0]]]);
                assert(seq![tok[0]] == tok);
                assert(tokens =~= pre.push(tok));
                assert(forest_postfix(es0) == pre);
            }
            es
        } else {
            let es = es0.push(RenderTree::Operand(tok));
            assert(stack == st0.push(tok));
            assert(tree_clean(RenderTree::Operand(tok)));
            assert forall|i: int| 0 <= i < es.len() implies tree_clean(#[trigger] es[i])
                && stack[i] == tree_render(es[i]) by {
                if i < es0.len() {
                    assert(es[i] == es0[i] && stack[i] == st0[i]);
                }
            }
            assert(forest_postfix(es) =~= tokens) by {
                assert(es.drop_last() =~= es0);
                assert(es.last() == RenderTree::Operand(tok));
                assert(tree_postfix(RenderTree::Operand(tok)) == seq![tok]);
                assert(tokens =~= pre.push(tok));
            }
            es
        }
    }
}

/// Round trip: a postfix sequence of clean tokens that the renderer turns
/// into an infix string is reproduced, token for token, when that string is
/// converted back to postfix. Clean tokens are the operator symbols and the
/// operand fragments free of operator, bracket, space and underscore
/// characters; on other sequences, or where rendering fails, the round trip
/// does not hold.
pub proof fn lemma_round_trip(tokens: Seq<Seq<char>>, s: Seq<char>)
    requires
        forall|i: int| 0 <= i < tokens.len() ==> clean_token(#[trigger] tokens[i]),
        infix_of(tokens) == Ok::<Seq<char>, RenderError>(s),
    ensures
        rpn_of(s) == tokens,
{
    let stack = match render_tokens(tokens, Seq::<Seq<char>>::empty()) {
        Ok(st) => st,
        Err(_) => arbitrary(),
    };
    assert(render_tokens(tokens, Seq::empty()) == Ok::<Seq<Seq<char>>, RenderError>(stack));
    assert(stack.len() == 1 && s == stack[0]);
    let es = lemma_render_to_trees(tokens, stack);
    let e = es[0];
    assert(tree_clean(e) && s == tree_render(e));
    assert(tree_postfix(e) == tokens) by {
        assert(es.drop_last() =~= Seq::<RenderTree>::empty());
        assert(es.last() == e);
        assert(forest_postfix(Seq::<RenderTree>::empty()) + tree_postfix(e) =~= tree_postfix(e));
    }
    lemma_strip_render(e);
    lemma_shunt_tree(shunt_init(), e);
    let st_end = shunt_feed(shunt_init(), strip(s));
    assert(singletons(Seq::<char>::empty().reverse()) =~= Seq::<Seq<char>>::empty());
    match e {
        RenderTree::Operand(sop) => {
            assert(st_end.acc == sop && sop.len() > 0) by {
                assert(clean_operand(sop));
            }
            assert(shunt_finish(st_end) =~= seq![sop]);
            assert(tree_postfix(e) == seq![sop]);
        },
        RenderTree::Node(_, _, _) => {
            assert(st_end.output == Seq::<Seq<char>>::empty() + tree_postfix(e));
            assert(st_end.acc.len() == 0);
            assert(shunt_finish(st_end) =~= Seq::<Seq<char>>::empty() + tree_postfix(e));
            assert(Seq::<Seq<char>>::empty() + tree_postfix(e) =~= tree_postfix(e));
        },
    }
}

} // verus!
