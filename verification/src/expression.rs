//! Infix-to-postfix conversion (the shunting-yard algorithm) and the
//! structural half of postfix evaluation.
//!
//! The converter turns an arithmetic string into a space-joined postfix
//! string, popping operators of equal or higher precedence before pushing a
//! new one, so that operators of equal precedence stay left-associative.
//! The numeric half of postfix evaluation works on floating-point values and
//! lives outside this library; what can be checked on tokens alone — that
//! every operator finds two operands and that exactly one value remains — is
//! here, as [`postfix_well_formed`].

use vstd::prelude::*;

use crate::utils::append_str_chars;
use crate::utils::chars_to_string;
use crate::utils::join_trailing;
use crate::utils::join_with_spaces;
use crate::utils::spec_split_ws;
use crate::utils::spec_tokenize;
use crate::utils::split_whitespace_tokens;
use crate::utils::str_sym_check;
use crate::utils::token;

verus! {

// ---------------------------------------------------------------------------
// Token classes and precedence
// ---------------------------------------------------------------------------

pub open spec fn is_lparen_tok(t: Seq<char>) -> bool {
    t == seq!['(']
}

pub open spec fn is_rparen_tok(t: Seq<char>) -> bool {
    t == seq![')']
}

/// One of the four binary operator tokens `+ - * /`.
pub open spec fn is_operator_tok(t: Seq<char>) -> bool {
    t == seq!['+'] || t == seq!['-'] || t == seq!['*'] || t == seq!['/']
}

/// Operator precedence: `+ -` bind at 1, `* /` at 2, anything else at 0.
pub open spec fn op_prec(t: Seq<char>) -> int {
    if t == seq!['+'] || t == seq!['-'] {
        1
    } else if t == seq!['*'] || t == seq!['/'] {
        2
    } else {
        0
    }
}

pub fn get_precedence(op: &str) -> (r: i32)
    ensures
        r as int == op_prec(op@),
{
    if str_sym_check(op, '+') || str_sym_check(op, '-') {
        1
    } else if str_sym_check(op, '*') || str_sym_check(op, '/') {
        2
    } else {
        0
    }
}

// ---------------------------------------------------------------------------
// The conversion, one token at a time
// ---------------------------------------------------------------------------

/// On a closing parenthesis: operators move from the stack to the output
/// until an opening parenthesis (or an empty stack) stops them.
pub open spec fn pop_to_lparen(out: Seq<Seq<char>>, ops: Seq<Seq<char>>) -> (Seq<Seq<char>>, Seq<
    Seq<char>,
>)
    decreases ops.len(),
{
    if ops.len() == 0 {
        (out, ops)
    } else if is_lparen_tok(ops.last()) {
        (out, ops)
    } else {
        pop_to_lparen(out.push(ops.last()), ops.drop_last())
    }
}

/// Drops the top of the operator stack, if there is one: the opening
/// parenthesis discarded after [`pop_to_lparen`].
pub open spec fn drop_top(ops: Seq<Seq<char>>) -> Seq<Seq<char>> {
    if ops.len() == 0 {
        ops
    } else {
        ops.drop_last()
    }
}

/// On an operator of precedence `p`: operators of precedence at least `p`
/// move to the output; an opening parenthesis (or an empty stack) stops them.
pub open spec fn pop_higher(out: Seq<Seq<char>>, ops: Seq<Seq<char>>, p: int) -> (Seq<Seq<char>>,
    Seq<Seq<char>>)
    decreases ops.len(),
{
    if ops.len() == 0 {
        (out, ops)
    } else if is_lparen_tok(ops.last()) || op_prec(ops.last()) < p {
        (out, ops)
    } else {
        pop_higher(out.push(ops.last()), ops.drop_last(), p)
    }
}

/// One shunting-yard step on state (`out`, `ops`): output so far and pending
/// operator stack.
pub open spec fn conv_step(out: Seq<Seq<char>>, ops: Seq<Seq<char>>, t: Seq<char>) -> (Seq<
    Seq<char>,
>, Seq<Seq<char>>) {
    if is_lparen_tok(t) {
        (out, ops.push(t))
    } else if is_rparen_tok(t) {
        let r = pop_to_lparen(out, ops);
        (r.0, drop_top(r.1))
    } else if is_operator_tok(t) {
        let r = pop_higher(out, ops, op_prec(t));
        (r.0, r.1.push(t))
    } else {
        (out.push(t), ops)
    }
}

/// The converter state after consuming all of `ts`.
pub open spec fn conv_state(ts: Seq<Seq<char>>) -> (Seq<Seq<char>>, Seq<Seq<char>>)
    decreases ts.len(),
{
    if ts.len() == 0 {
        (Seq::empty(), Seq::empty())
    } else {
        let st = conv_state(ts.drop_last());
        conv_step(st.0, st.1, ts.last())
    }
}

/// The postfix token sequence of `ts`: after all tokens are consumed the
/// remaining operators are popped to the output, topmost first.
pub open spec fn spec_to_postfix(ts: Seq<Seq<char>>) -> Seq<Seq<char>> {
    conv_state(ts).0 + conv_state(ts).1.reverse()
}

proof fn lemma_join_trailing(ts: Seq<Seq<char>>)
    ensures
        ts.len() > 0 ==> join_trailing(ts) =~= join_with_spaces(ts) + seq![' '],
    decreases ts.len(),
{
    if ts.len() == 1 {
        assert(join_trailing(ts.drop_last()) =~= Seq::<char>::empty());
        assert(join_with_spaces(ts) == ts[0]);
    } else if ts.len() > 1 {
        lemma_join_trailing(ts.drop_last());
    }
}

// ---------------------------------------------------------------------------
// The conversion, as a function on strings
// ---------------------------------------------------------------------------

/// What [`infix_to_postfix`] returns: tokenize, convert, join with spaces.
pub open spec fn spec_infix_to_postfix(s: Seq<char>) -> Seq<char> {
    join_with_spaces(spec_to_postfix(spec_tokenize(s)))
}

/// Converts an infix arithmetic string to its postfix form, space-joined.
///
/// Ill-formed input is not rejected: an unmatched closing parenthesis pops
/// what operators there are, and an unmatched opening parenthesis ends up in
/// the output when the stack is drained.
pub fn infix_to_postfix(infix: &str) -> (r: String)
    ensures
        r@ == spec_infix_to_postfix(infix@),
{
    let tokens = token(infix);
    let ghost toks = tokens.deep_view();
    let mut out_chars: Vec<char> = Vec::new();
    let ghost mut emitted: Seq<Seq<char>> = Seq::empty();
    let mut op_stack: Vec<String> = Vec::new();
    let mut i: usize = 0;
    while i < tokens.len()
        invariant
            toks == tokens.deep_view(),
            i <= tokens.len(),
            emitted == conv_state(toks.take(i as int)).0,
            op_stack.deep_view() == conv_state(toks.take(i as int)).1,
            out_chars@ == join_trailing(emitted),
        decreases tokens.len() - i,
    {
        let ghost st = conv_state(toks.take(i as int));
        let tok = &tokens[i];
        proof {
            assert(tokens.deep_view()[i as int] == tokens@[i as int]@);
            assert(toks.take(i + 1).drop_last() =~= toks.take(i as int));
            assert(toks.take(i + 1).last() == toks[i as int]);
        }
        if str_sym_check(tok.as_str(), '(') {
            op_stack.push(tok.clone());
            proof {
                assert(op_stack.deep_view() =~~= st.1.push(tok@));
            }
        } else if str_sym_check(tok.as_str(), ')') {
            while op_stack.len() > 0 && !str_sym_check(op_stack[op_stack.len() - 1].as_str(), '(')
                invariant
                    out_chars@ == join_trailing(emitted),
                    pop_to_lparen(emitted, op_stack.deep_view()) == pop_to_lparen(st.0, st.1),
                decreases op_stack.len(),
            {
                let ghost ops0 = op_stack.deep_view();
                proof {
                    assert(ops0.last() == op_stack@[op_stack@.len() - 1]@);
                }
                let top = op_stack.pop().unwrap();
                append_str_chars(&mut out_chars, top.as_str());
                out_chars.push(' ');
                proof {
                    assert(op_stack.deep_view() =~~= ops0.drop_last());
                    let e0 = emitted;
                    emitted = emitted.push(top@);
                    assert(emitted.drop_last() =~= e0);
                    assert(out_chars@ =~= join_trailing(emitted));
                }
            }
            proof {
                if op_stack@.len() > 0 {
                    assert(op_stack.deep_view().last() == op_stack@[op_stack@.len() - 1]@);
                }
                assert(pop_to_lparen(emitted, op_stack.deep_view()) == (
                    emitted,
                    op_stack.deep_view(),
                ));
            }
            let ghost ops1 = op_stack.deep_view();
            let _ = op_stack.pop();
            proof {
                if ops1.len() > 0 {
                    assert(op_stack.deep_view() =~~= ops1.drop_last());
                } else {
                    assert(op_stack.deep_view() =~~= ops1);
                }
                assert(op_stack.deep_view() == drop_top(ops1));
            }
        } else if str_sym_check(tok.as_str(), '+') || str_sym_check(tok.as_str(), '-')
            || str_sym_check(tok.as_str(), '*') || str_sym_check(tok.as_str(), '/') {
            let p = get_precedence(tok.as_str());
            while op_stack.len() > 0 && !str_sym_check(op_stack[op_stack.len() - 1].as_str(), '(')
                && get_precedence(op_stack[op_stack.len() - 1].as_str()) >= p
                invariant
                    out_chars@ == join_trailing(emitted),
                    p as int == op_prec(toks[i as int]),
                    i < toks.len(),
                    pop_higher(emitted, op_stack.deep_view(), op_prec(toks[i as int]))
                        == pop_higher(st.0, st.1, op_prec(toks[i as int])),
                decreases op_stack.len(),
            {
                let ghost ops0 = op_stack.deep_view();
                proof {
                    assert(ops0.last() == op_stack@[op_stack@.len() - 1]@);
                }
                let top = op_stack.pop().unwrap();
                append_str_chars(&mut out_chars, top.as_str());
                out_chars.push(' ');
                proof {
                    assert(op_stack.deep_view() =~~= ops0.drop_last());
                    let e0 = emitted;
                    emitted = emitted.push(top@);
                    assert(emitted.drop_last() =~= e0);
                    assert(out_chars@ =~= join_trailing(emitted));
                }
            }
            proof {
                if op_stack@.len() > 0 {
                    assert(op_stack.deep_view().last() == op_stack@[op_stack@.len() - 1]@);
                }
                assert(pop_higher(emitted, op_stack.deep_view(), op_prec(toks[i as int])) == (
                    emitted,
                    op_stack.deep_view(),
                ));
            }
            op_stack.push(tok.clone());
            proof {
                assert(op_stack.deep_view() =~~= pop_higher(st.0, st.1, op_prec(toks[i as int])).1
                    .push(tok@));
            }
        } else {
            append_str_chars(&mut out_chars, tok.as_str());
            out_chars.push(' ');
            proof {
                let e0 = emitted;
                emitted = emitted.push(tok@);
                assert(emitted.drop_last() =~= e0);
                assert(out_chars@ =~= join_trailing(emitted));
            }
        }
        i = i + 1;
    }
    proof {
        assert(toks.take(toks.len() as int) =~= toks);
    }
    let ghost fin = conv_state(toks);
    while op_stack.len() > 0
        invariant
            out_chars@ == join_trailing(emitted),
            emitted + op_stack.deep_view().reverse() == fin.0 + fin.1.reverse(),
        decreases op_stack.len(),
    {
        let ghost ops0 = op_stack.deep_view();
        proof {
            assert(ops0.last() == op_stack@[op_stack@.len() - 1]@);
            assert(ops0.reverse() =~= seq![ops0.last()] + ops0.drop_last().reverse());
        }
        let top = op_stack.pop().unwrap();
        append_str_chars(&mut out_chars, top.as_str());
        out_chars.push(' ');
        proof {
            assert(op_stack.deep_view() =~~= ops0.drop_last());
            let e0 = emitted;
            emitted = emitted.push(top@);
            assert(emitted.drop_last() =~= e0);
            assert(out_chars@ =~= join_trailing(emitted));
            assert(emitted + op_stack.deep_view().reverse() =~= (e0 + ops0.reverse()));
        }
    }
    proof {
        assert(op_stack.deep_view().reverse() =~= Seq::<Seq<char>>::empty());
        assert(emitted =~= emitted + op_stack.deep_view().reverse());
        assert(emitted == spec_to_postfix(toks));
        lemma_join_trailing(emitted);
    }
    if out_chars.len() > 0 {
        let _ = out_chars.pop();
        proof {
            assert(out_chars@ =~= join_with_spaces(emitted));
        }
    }
    chars_to_string(&out_chars)
}

// ---------------------------------------------------------------------------
// The structural half of postfix evaluation
// ---------------------------------------------------------------------------

/// The operand-stack depth after `ts`, counting each non-operator token as
/// one pushed operand and each operator as two pops and one push; `None` once
/// an operator finds fewer than two operands.
pub open spec fn stack_effect(ts: Seq<Seq<char>>) -> Option<int>
    decreases ts.len(),
{
    if ts.len() == 0 {
        Some(0)
    } else {
        match stack_effect(ts.drop_last()) {
            None => None,
            Some(d) => if is_operator_tok(ts.last()) {
                if d >= 2 {
                    Some(d - 1)
                } else {
                    None
                }
            } else {
                Some(d + 1)
            },
        }
    }
}

/// A postfix token sequence that an operand stack can reduce to exactly one
/// value: no operator underflows, and one operand remains at the end.
pub open spec fn spec_postfix_well_formed(ts: Seq<Seq<char>>) -> bool {
    stack_effect(ts) == Some(1int)
}

/// Checks the operand-stack discipline of a whitespace-separated postfix
/// string: every operator finds two operands and exactly one value remains.
/// This is the part of postfix evaluation that does not depend on the
/// numeric values; whether each operand parses, and whether a division meets
/// a zero, only the numeric evaluation can tell.
pub fn postfix_well_formed(postfix: &str) -> (b: bool)
    ensures
        b == spec_postfix_well_formed(spec_split_ws(postfix@)),
{
    let tokens = split_whitespace_tokens(postfix);
    let ghost ts = tokens.deep_view();
    let mut depth: usize = 0;
    let mut ok = true;
    let mut i: usize = 0;
    while i < tokens.len()
        invariant
            ts == tokens.deep_view(),
            i <= tokens.len(),
            depth <= i,
            ok ==> stack_effect(ts.take(i as int)) == Some(depth as int),
            !ok ==> stack_effect(ts.take(i as int)) is None,
        decreases tokens.len() - i,
    {
        let tok = &tokens[i];
        proof {
            assert(tokens.deep_view()[i as int] == tokens@[i as int]@);
            assert(ts.take(i + 1).drop_last() =~= ts.take(i as int));
            assert(ts.take(i + 1).last() == ts[i as int]);
        }
        if str_sym_check(tok.as_str(), '+') || str_sym_check(tok.as_str(), '-') || str_sym_check(
            tok.as_str(),
            '*',
        ) || str_sym_check(tok.as_str(), '/') {
            if depth >= 2 {
                depth = depth - 1;
            } else {
                ok = false;
            }
        } else {
            depth = depth + 1;
        }
        i = i + 1;
    }
    proof {
        assert(ts.take(ts.len() as int) =~= ts);
    }
    ok && depth == 1
}

// ---------------------------------------------------------------------------
// Well-formed infix input yields well-formed postfix output
// ---------------------------------------------------------------------------

/// One step of infix validity. Reading left to right, the parser either
/// expects an operand (an operand or `(` may come) or expects an operator
/// (an operator or, inside parentheses, `)` may come); anything else is
/// ill-formed.
pub open spec fn infix_step(expect_operand: bool, depth: int, t: Seq<char>) -> (bool, int, bool) {
    if expect_operand {
        if is_lparen_tok(t) {
            (true, depth + 1, true)
        } else if is_operator_tok(t) || is_rparen_tok(t) {
            (true, depth, false)
        } else {
            (false, depth, true)
        }
    } else {
        if is_operator_tok(t) {
            (true, depth, true)
        } else if is_rparen_tok(t) && depth > 0 {
            (false, depth - 1, true)
        } else {
            (false, depth, false)
        }
    }
}

/// The validity state after `ts`: what is expected next, the parenthesis
/// depth, and whether no violation was found; a failed state stays failed.
pub open spec fn infix_state(ts: Seq<Seq<char>>) -> (bool, int, bool)
    decreases ts.len(),
{
    if ts.len() == 0 {
        (true, 0, true)
    } else {
        let st = infix_state(ts.drop_last());
        if !st.2 {
            st
        } else {
            infix_step(st.0, st.1, ts.last())
        }
    }
}

/// A well-formed infix token sequence: operands and parenthesized groups
/// alternate with binary operators, and every parenthesis closes.
pub open spec fn wf_infix_tokens(ts: Seq<Seq<char>>) -> bool {
    infix_state(ts) == (false, 0int, true)
}

/// Every pending item on the operator stack is an operator or `(`.
pub open spec fn ops_ok(ops: Seq<Seq<char>>) -> bool {
    forall|i: int|
        0 <= i < ops.len() ==> is_operator_tok(#[trigger] ops[i]) || is_lparen_tok(ops[i])
}

/// The number of `(` entries on the operator stack.
pub open spec fn paren_count(ops: Seq<Seq<char>>) -> int
    decreases ops.len(),
{
    if ops.len() == 0 {
        0
    } else {
        paren_count(ops.drop_last()) + (if is_lparen_tok(ops.last()) {
            1int
        } else {
            0int
        })
    }
}

/// The number of operator entries on the operator stack.
pub open spec fn op_count(ops: Seq<Seq<char>>) -> int
    decreases ops.len(),
{
    if ops.len() == 0 {
        0
    } else {
        op_count(ops.drop_last()) + (if is_operator_tok(ops.last()) {
            1int
        } else {
            0int
        })
    }
}

proof fn lemma_counts_nonneg(ops: Seq<Seq<char>>)
    ensures
        paren_count(ops) >= 0,
        op_count(ops) >= 0,
    decreases ops.len(),
{
    if ops.len() > 0 {
        lemma_counts_nonneg(ops.drop_last());
    }
}

proof fn lemma_effect_push(out: Seq<Seq<char>>, t: Seq<char>)
    ensures
        stack_effect(out.push(t)) == (match stack_effect(out) {
            None => None,
            Some(d) => if is_operator_tok(t) {
                if d >= 2 {
                    Some(d - 1)
                } else {
                    None
                }
            } else {
                Some(d + 1)
            },
        }),
{
    assert(out.push(t).drop_last() =~= out);
    assert(out.push(t).last() == t);
}

proof fn lemma_pop_higher_shape(out: Seq<Seq<char>>, ops: Seq<Seq<char>>, p: int)
    requires
        ops_ok(ops),
        stack_effect(out) == Some(op_count(ops) + 1),
    ensures
        ops_ok(pop_higher(out, ops, p).1),
        paren_count(pop_higher(out, ops, p).1) == paren_count(ops),
        stack_effect(pop_higher(out, ops, p).0) == Some(op_count(pop_higher(out, ops, p).1) + 1),
    decreases ops.len(),
{
    if ops.len() == 0 || is_lparen_tok(ops.last()) || op_prec(ops.last()) < p {
    } else {
        assert(is_operator_tok(ops.last()));
        lemma_counts_nonneg(ops.drop_last());
        lemma_effect_push(out, ops.last());
        assert forall|i: int| 0 <= i < ops.drop_last().len() implies is_operator_tok(
            #[trigger] ops.drop_last()[i],
        ) || is_lparen_tok(ops.drop_last()[i]) by {
            assert(ops.drop_last()[i] == ops[i]);
        }
        lemma_pop_higher_shape(out.push(ops.last()), ops.drop_last(), p);
    }
}

proof fn lemma_pop_to_lparen_shape(out: Seq<Seq<char>>, ops: Seq<Seq<char>>)
    requires
        ops_ok(ops),
        paren_count(ops) >= 1,
        stack_effect(out) == Some(op_count(ops) + 1),
    ensures
        ops_ok(pop_to_lparen(out, ops).1),
        pop_to_lparen(out, ops).1.len() > 0,
        is_lparen_tok(pop_to_lparen(out, ops).1.last()),
        paren_count(pop_to_lparen(out, ops).1) == paren_count(ops),
        stack_effect(pop_to_lparen(out, ops).0) == Some(op_count(pop_to_lparen(out, ops).1) + 1),
    decreases ops.len(),
{
    if ops.len() == 0 {
        assert(false);
    } else if is_lparen_tok(ops.last()) {
    } else {
        assert(is_operator_tok(ops.last()));
        lemma_counts_nonneg(ops.drop_last());
        lemma_effect_push(out, ops.last());
        assert forall|i: int| 0 <= i < ops.drop_last().len() implies is_operator_tok(
            #[trigger] ops.drop_last()[i],
        ) || is_lparen_tok(ops.drop_last()[i]) by {
            assert(ops.drop_last()[i] == ops[i]);
        }
        lemma_pop_to_lparen_shape(out.push(ops.last()), ops.drop_last());
    }
}

proof fn lemma_drain(out: Seq<Seq<char>>, ops: Seq<Seq<char>>)
    requires
        ops_ok(ops),
        paren_count(ops) == 0,
        stack_effect(out) == Some(op_count(ops) + 1),
    ensures
        stack_effect(out + ops.reverse()) == Some(1int),
    decreases ops.len(),
{
    if ops.len() == 0 {
        assert(out + ops.reverse() =~= out);
    } else {
        lemma_counts_nonneg(ops.drop_last());
        assert(!is_lparen_tok(ops.last()));
        assert(is_operator_tok(ops.last()));
        assert(op_count(ops) >= 1);
        lemma_effect_push(out, ops.last());
        assert forall|i: int| 0 <= i < ops.drop_last().len() implies is_operator_tok(
            #[trigger] ops.drop_last()[i],
        ) || is_lparen_tok(ops.drop_last()[i]) by {
            assert(ops.drop_last()[i] == ops[i]);
        }
        assert(out + ops.reverse() =~= out.push(ops.last()) + ops.drop_last().reverse());
        lemma_drain(out.push(ops.last()), ops.drop_last());
    }
}

proof fn lemma_singleton_toks()
    ensures
        seq!['('][0int] == '(',
        seq![')'][0int] == ')',
        seq!['+'][0int] == '+',
        seq!['-'][0int] == '-',
        seq!['*'][0int] == '*',
        seq!['/'][0int] == '/',
{
}

proof fn lemma_conv_inv(ts: Seq<Seq<char>>, i: int)
    requires
        0 <= i <= ts.len(),
        infix_state(ts.take(i)).2,
    ensures
        ops_ok(conv_state(ts.take(i)).1),
        paren_count(conv_state(ts.take(i)).1) == infix_state(ts.take(i)).1,
        infix_state(ts.take(i)).0 ==> stack_effect(conv_state(ts.take(i)).0) == Some(
            op_count(conv_state(ts.take(i)).1),
        ),
        !infix_state(ts.take(i)).0 ==> stack_effect(conv_state(ts.take(i)).0) == Some(
            op_count(conv_state(ts.take(i)).1) + 1,
        ),
    decreases i,
{
    if i == 0 {
        assert(ts.take(0) =~= Seq::<Seq<char>>::empty());
    } else {
        lemma_singleton_toks();
        assert(ts.take(i).drop_last() =~= ts.take(i - 1));
        assert(ts.take(i).last() == ts[i - 1]);
        let m0 = infix_state(ts.take(i - 1));
        assert(m0.2);
        lemma_conv_inv(ts, i - 1);
        let st = conv_state(ts.take(i - 1));
        let t = ts[i - 1];
        if m0.0 {
            if is_lparen_tok(t) {
                assert(st.1.push(t).drop_last() =~= st.1);
                assert forall|k: int| 0 <= k < st.1.push(t).len() implies is_operator_tok(
                    #[trigger] st.1.push(t)[k],
                ) || is_lparen_tok(st.1.push(t)[k]) by {
                    if k < st.1.len() {
                        assert(st.1.push(t)[k] == st.1[k]);
                    }
                }
            } else {
                assert(!is_operator_tok(t) && !is_rparen_tok(t));
                lemma_effect_push(st.0, t);
            }
        } else {
            if is_operator_tok(t) {
                lemma_pop_higher_shape(st.0, st.1, op_prec(t));
                let r = pop_higher(st.0, st.1, op_prec(t));
                assert(!is_lparen_tok(t));
                assert(r.1.push(t).drop_last() =~= r.1);
                assert forall|k: int| 0 <= k < r.1.push(t).len() implies is_operator_tok(
                    #[trigger] r.1.push(t)[k],
                ) || is_lparen_tok(r.1.push(t)[k]) by {
                    if k < r.1.len() {
                        assert(r.1.push(t)[k] == r.1[k]);
                    }
                }
            } else {
                assert(is_rparen_tok(t) && m0.1 > 0);
                assert(!is_lparen_tok(t));
                lemma_pop_to_lparen_shape(st.0, st.1);
                let r = pop_to_lparen(st.0, st.1);
                assert(drop_top(r.1) == r.1.drop_last());
                assert forall|k: int| 0 <= k < r.1.drop_last().len() implies is_operator_tok(
                    #[trigger] r.1.drop_last()[k],
                ) || is_lparen_tok(r.1.drop_last()[k]) by {
                    assert(r.1.drop_last()[k] == r.1[k]);
                }
                assert(!is_operator_tok(r.1.last()));
                assert(paren_count(r.1.drop_last()) == paren_count(r.1) - 1);
                assert(op_count(r.1.drop_last()) == op_count(r.1));
            }
        }
    }
}

/// The structural half of the round trip: a well-formed infix token
/// sequence converts to a postfix sequence that an operand stack reduces to
/// exactly one value. What the value is depends on numeric evaluation,
/// which works on floating-point numbers outside this library.
pub proof fn lemma_conversion_well_formed(ts: Seq<Seq<char>>)
    requires
        wf_infix_tokens(ts),
    ensures
        spec_postfix_well_formed(spec_to_postfix(ts)),
{
    assert(ts.take(ts.len() as int) =~= ts);
    lemma_conv_inv(ts, ts.len() as int);
    lemma_drain(conv_state(ts).0, conv_state(ts).1);
}


proof fn lemma_wf_token_spaceless(t: Seq<char>)
    requires
        crate::utils::wf_token(t),
    ensures
        t.len() > 0,
        forall|j: int| 0 <= j < t.len() ==> !crate::utils::is_ws_char(#[trigger] t[j]),
{
    lemma_singleton_toks();
    if crate::utils::is_symbol_tok(t) {
        assert(seq!['('].len() == 1);
        assert forall|j: int| 0 <= j < t.len() implies !crate::utils::is_ws_char(
            #[trigger] t[j],
        ) by {
            assert(j == 0);
        }
    }
}

proof fn lemma_spaceless_push(q: Seq<Seq<char>>, t: Seq<char>)
    requires
        crate::utils::spaceless_tokens(q),
        t.len() > 0,
        forall|j: int| 0 <= j < t.len() ==> !crate::utils::is_ws_char(#[trigger] t[j]),
    ensures
        crate::utils::spaceless_tokens(q.push(t)),
{
    assert forall|i: int|
        0 <= i < q.push(t).len() implies (#[trigger] q.push(t)[i]).len() > 0 && forall|j: int|
        0 <= j < q.push(t)[i].len() ==> !crate::utils::is_ws_char(#[trigger] q.push(t)[i][j]) by {
        if i < q.len() {
            assert(q.push(t)[i] == q[i]);
        } else {
            assert(q.push(t)[i] == t);
        }
    }
}

proof fn lemma_spaceless_drop(q: Seq<Seq<char>>)
    requires
        crate::utils::spaceless_tokens(q),
        q.len() > 0,
    ensures
        crate::utils::spaceless_tokens(q.drop_last()),
{
    assert forall|i: int|
        0 <= i < q.drop_last().len() implies (#[trigger] q.drop_last()[i]).len() > 0 && forall|
        j: int,
    | 0 <= j < q.drop_last()[i].len() ==> !crate::utils::is_ws_char(
        #[trigger] q.drop_last()[i][j],
    ) by {
        assert(q.drop_last()[i] == q[i]);
    }
}

proof fn lemma_pop_higher_spaceless(out: Seq<Seq<char>>, ops: Seq<Seq<char>>, p: int)
    requires
        crate::utils::spaceless_tokens(out),
        crate::utils::spaceless_tokens(ops),
    ensures
        crate::utils::spaceless_tokens(pop_higher(out, ops, p).0),
        crate::utils::spaceless_tokens(pop_higher(out, ops, p).1),
    decreases ops.len(),
{
    if !(ops.len() == 0 || is_lparen_tok(ops.last()) || op_prec(ops.last()) < p) {
        assert(ops.last() == ops[ops.len() - 1]);
        lemma_spaceless_push(out, ops.last());
        lemma_spaceless_drop(ops);
        lemma_pop_higher_spaceless(out.push(ops.last()), ops.drop_last(), p);
    }
}

proof fn lemma_pop_to_lparen_spaceless(out: Seq<Seq<char>>, ops: Seq<Seq<char>>)
    requires
        crate::utils::spaceless_tokens(out),
        crate::utils::spaceless_tokens(ops),
    ensures
        crate::utils::spaceless_tokens(pop_to_lparen(out, ops).0),
        crate::utils::spaceless_tokens(pop_to_lparen(out, ops).1),
    decreases ops.len(),
{
    if ops.len() == 0 {
    } else if is_lparen_tok(ops.last()) {
        lemma_spaceless_drop(ops);
    } else {
        assert(ops.last() == ops[ops.len() - 1]);
        lemma_spaceless_push(out, ops.last());
        lemma_spaceless_drop(ops);
        lemma_pop_to_lparen_spaceless(out.push(ops.last()), ops.drop_last());
    }
}

proof fn lemma_conv_spaceless(ts: Seq<Seq<char>>, i: int)
    requires
        0 <= i <= ts.len(),
        forall|k: int| 0 <= k < ts.len() ==> crate::utils::wf_token(#[trigger] ts[k]),
    ensures
        crate::utils::spaceless_tokens(conv_state(ts.take(i)).0),
        crate::utils::spaceless_tokens(conv_state(ts.take(i)).1),
    decreases i,
{
    if i == 0 {
        assert(ts.take(0) =~= Seq::<Seq<char>>::empty());
        assert(crate::utils::spaceless_tokens(Seq::<Seq<char>>::empty()));
    } else {
        lemma_conv_spaceless(ts, i - 1);
        assert(ts.take(i).drop_last() =~= ts.take(i - 1));
        assert(ts.take(i).last() == ts[i - 1]);
        let st = conv_state(ts.take(i - 1));
        let t = ts[i - 1];
        lemma_wf_token_spaceless(t);
        if is_lparen_tok(t) {
            lemma_spaceless_push(st.1, t);
        } else if is_rparen_tok(t) {
            lemma_pop_to_lparen_spaceless(st.0, st.1);
            let r = pop_to_lparen(st.0, st.1);
            if r.1.len() > 0 {
                lemma_spaceless_drop(r.1);
            }
        } else if is_operator_tok(t) {
            lemma_pop_higher_spaceless(st.0, st.1, op_prec(t));
            lemma_spaceless_push(pop_higher(st.0, st.1, op_prec(t)).1, t);
        } else {
            lemma_spaceless_push(st.0, t);
        }
    }
}

/// The whole pipeline, at the string boundary: when the tokens of `s` form
/// a well-formed infix expression, converting `s` and splitting the result
/// at whitespace yields a postfix token sequence that an operand stack
/// reduces to exactly one value.
pub proof fn lemma_pipeline_well_formed(s: Seq<char>)
    requires
        wf_infix_tokens(spec_tokenize(s)),
    ensures
        spec_split_ws(spec_infix_to_postfix(s)) == spec_to_postfix(spec_tokenize(s)),
        spec_postfix_well_formed(spec_split_ws(spec_infix_to_postfix(s))),
{
    let ts = spec_tokenize(s);
    crate::utils::lemma_tokenize_good(s);
    lemma_conversion_well_formed(ts);
    assert(ts.take(ts.len() as int) =~= ts);
    lemma_conv_spaceless(ts, ts.len() as int);
    let out = conv_state(ts).0;
    let ops = conv_state(ts).1;
    let full = out + ops.reverse();
    assert forall|i: int|
        0 <= i < full.len() implies (#[trigger] full[i]).len() > 0 && forall|j: int|
        0 <= j < full[i].len() ==> !crate::utils::is_ws_char(#[trigger] full[i][j]) by {
        if i < out.len() {
            assert(full[i] == out[i]);
        } else {
            assert(full[i] == ops.reverse()[i - out.len()]);
            assert(ops.reverse()[i - out.len()] == ops[ops.len() - 1 - (i - out.len())]);
        }
    }
    crate::utils::lemma_split_rejoin(full);
}


} // verus!
