//! A dynamic stack over a growable vector, and the stack-based exercises
//! built on it: parenthesis matching, binary and general base conversion,
//! and a second, whitespace-tokenized infix-to-postfix converter.

use vstd::prelude::*;

use crate::expression::is_lparen_tok;
use crate::expression::is_operator_tok;
use crate::expression::is_rparen_tok;
use crate::utils::chars_to_string;
use crate::utils::join_trailing;
use crate::utils::append_str_chars;
use crate::utils::spec_split_ws;
use crate::utils::split_whitespace_tokens;
use crate::utils::str_sym_check;

verus! {

/// A LIFO stack backed by a growable vector; the view is the element
/// sequence, bottom first.
pub struct Stack<T> {
    data: Vec<T>,
}

impl<T> View for Stack<T> {
    type V = Seq<T>;

    closed spec fn view(&self) -> Seq<T> {
        self.data@
    }
}

impl<T> Stack<T> {
    /// Creates a new empty stack.
    pub fn new() -> (s: Self)
        ensures
            s@ == Seq::<T>::empty(),
    {
        Self { data: Vec::new() }
    }

    /// Whether the stack holds no element.
    pub fn is_empty(&self) -> (b: bool)
        ensures
            b == (self@.len() == 0),
    {
        self.data.len() == 0
    }

    /// The number of elements on the stack.
    pub fn len(&self) -> (n: usize)
        ensures
            n == self@.len(),
    {
        self.data.len()
    }

    /// Removes every element.
    pub fn clear(&mut self)
        ensures
            final(self)@ == Seq::<T>::empty(),
    {
        self.data.clear();
    }

    /// Pushes `val` on top of the stack.
    pub fn push(&mut self, val: T)
        ensures
            final(self)@ == old(self)@.push(val),
    {
        self.data.push(val);
    }

    /// Pops and returns the top element; `None` on an empty stack.
    pub fn pop(&mut self) -> (r: Option<T>)
        ensures
            old(self)@.len() == 0 ==> r is None && final(self)@ == old(self)@,
            old(self)@.len() > 0 ==> r == Some(old(self)@.last()) && final(self)@ == old(
                self,
            )@.drop_last(),
    {
        if self.data.len() == 0 {
            return None;
        }
        self.data.pop()
    }

    /// A reference to the top element; `None` on an empty stack.
    pub fn peek(&self) -> (r: Option<&T>)
        ensures
            self@.len() == 0 ==> r is None,
            self@.len() > 0 ==> (r matches Some(v) && *v == self@.last()),
    {
        if self.data.len() == 0 {
            return None;
        }
        Some(&self.data[self.data.len() - 1])
    }

    /// A mutable reference to the top element; `None` on an empty stack.
    /// Writing through the reference replaces the top element.
    pub fn peek_mut(&mut self) -> (r: Option<&mut T>)
        ensures
            old(self)@.len() == 0 ==> r is None && final(self)@ == old(self)@,
            old(self)@.len() > 0 ==> (r matches Some(v) && *v == old(self)@.last() && final(self)@
                == old(self)@.update(old(self)@.len() - 1, *final(v))),
    {
        if self.data.len() == 0 {
            return None;
        }
        let n = self.data.len();
        Some(&mut self.data[n - 1])
    }
}

// ---------------------------------------------------------------------------
// Parenthesis matching
// ---------------------------------------------------------------------------

/// The position of `c` among the openers `( [ {`, or -1.
pub open spec fn opener_num(c: char) -> int {
    if c == '(' {
        0
    } else if c == '[' {
        1
    } else if c == '{' {
        2
    } else {
        -1
    }
}

/// The position of `c` among the closers `) ] }`, or -1.
pub open spec fn closer_num(c: char) -> int {
    if c == ')' {
        0
    } else if c == ']' {
        1
    } else if c == '}' {
        2
    } else {
        -1
    }
}

/// Whether `left` and `right` sit at the same position in `([{` and `)]}`;
/// two characters from neither set also count as matching.
pub fn par_match(left: char, right: char) -> (b: bool)
    ensures
        b == (opener_num(left) == closer_num(right)),
{
    let l: i32 = if left == '(' {
        0
    } else if left == '[' {
        1
    } else if left == '{' {
        2
    } else {
        -1
    };
    let r: i32 = if right == ')' {
        0
    } else if right == ']' {
        1
    } else if right == '}' {
        2
    } else {
        -1
    };
    l == r
}

/// One step of the balance check: openers go on the stack, a closer pops its
/// supposed partner and fails on a mismatch or an empty stack.
pub open spec fn par_step(stk: Seq<char>, c: char) -> (Seq<char>, bool) {
    if opener_num(c) >= 0 {
        (stk.push(c), true)
    } else if closer_num(c) >= 0 {
        if stk.len() == 0 {
            (stk, false)
        } else {
            (stk.drop_last(), opener_num(stk.last()) == closer_num(c))
        }
    } else {
        (stk, true)
    }
}

/// The balance-check state after `s`: pending openers and whether no
/// mismatch has been found; a failed state stays as it was when it failed.
pub open spec fn par_state(s: Seq<char>) -> (Seq<char>, bool)
    decreases s.len(),
{
    if s.len() == 0 {
        (Seq::empty(), true)
    } else {
        let st = par_state(s.drop_last());
        if !st.1 {
            st
        } else {
            par_step(st.0, s.last())
        }
    }
}

/// Balanced and correctly nested brackets: no mismatch, and no opener left.
pub open spec fn spec_par_check(s: Seq<char>) -> bool {
    par_state(s).1 && par_state(s).0.len() == 0
}

proof fn lemma_par_frozen(s: Seq<char>, m: int)
    requires
        0 <= m <= s.len(),
        !par_state(s.take(m)).1,
    ensures
        par_state(s) == par_state(s.take(m)),
    decreases s.len() - m,
{
    if m < s.len() {
        assert(s.take(m + 1).drop_last() =~= s.take(m));
        lemma_par_frozen(s, m + 1);
    } else {
        assert(s.take(m) =~= s);
    }
}

/// Whether the brackets `( ) [ ] { }` in `par` are balanced and correctly
/// nested; all other characters are ignored.
pub fn par_checker(par: &str) -> (b: bool)
    ensures
        b == spec_par_check(par@),
{
    let mut char_list: Vec<char> = Vec::new();
    let n = par.unicode_len();
    let mut k: usize = 0;
    while k < n
        invariant
            n == par@.len(),
            k <= n,
            char_list@ == par@.take(k as int),
        decreases n - k,
    {
        char_list.push(par.get_char(k));
        proof {
            assert(par@.take(k + 1) =~= par@.take(k as int).push(par@[k as int]));
        }
        k = k + 1;
    }
    proof {
        assert(par@.take(n as int) =~= par@);
    }
    let mut index: usize = 0;
    let mut balance = true;
    let mut stack: Stack<char> = Stack::new();
    while index < char_list.len() && balance
        invariant
            char_list@ == par@,
            index <= char_list@.len(),
            balance ==> par_state(par@.take(index as int)) == (stack@, true),
            !balance ==> par_state(par@) == (stack@, false),
        decreases char_list@.len() - index,
    {
        let c = char_list[index];
        proof {
            assert(par@.take(index + 1).drop_last() =~= par@.take(index as int));
            assert(par@.take(index + 1).last() == par@[index as int]);
        }
        if c == '(' || c == '[' || c == '{' {
            stack.push(c);
        }
        if c == ')' || c == ']' || c == '}' {
            if stack.is_empty() {
                balance = false;
            } else {
                let top = stack.pop().unwrap();
                if !par_match(top, c) {
                    balance = false;
                }
            }
        }
        index = index + 1;
        proof {
            if !balance {
                lemma_par_frozen(par@, index as int);
            }
        }
    }
    balance && stack.is_empty()
}

// ---------------------------------------------------------------------------
// Base conversion
// ---------------------------------------------------------------------------

/// The digit character for `d`: `0`..=`9`, then `A`..=`F`.
pub open spec fn digit_char(d: int) -> char {
    if d == 0 {
        '0'
    } else if d == 1 {
        '1'
    } else if d == 2 {
        '2'
    } else if d == 3 {
        '3'
    } else if d == 4 {
        '4'
    } else if d == 5 {
        '5'
    } else if d == 6 {
        '6'
    } else if d == 7 {
        '7'
    } else if d == 8 {
        '8'
    } else if d == 9 {
        '9'
    } else if d == 10 {
        'A'
    } else if d == 11 {
        'B'
    } else if d == 12 {
        'C'
    } else if d == 13 {
        'D'
    } else if d == 14 {
        'E'
    } else {
        'F'
    }
}

/// The base-`b` digits of `n`, most significant first; empty for zero.
pub open spec fn base_seq(n: int, b: int) -> Seq<char>
    decreases n,
    via base_seq_decreases
{
    if n <= 0 || b < 2 {
        Seq::empty()
    } else {
        base_seq(n / b, b).push(digit_char(n % b))
    }
}

#[via_fn]
proof fn base_seq_decreases(n: int, b: int) {
    if !(n <= 0 || b < 2) {
        assert(0 <= n / b < n) by (nonlinear_arith)
            requires
                n >= 1 && b >= 2,
        ;
    }
}

/// The digits a stack of remainders yields when popped, top first.
pub open spec fn stack_digits(s: Seq<u32>) -> Seq<char>
    decreases s.len(),
{
    if s.len() == 0 {
        Seq::empty()
    } else {
        seq![digit_char(s.last() as int)] + stack_digits(s.drop_last())
    }
}

/// The binary representation of `dec_num`, built by stacking remainders of
/// repeated division by two; the empty string for zero.
pub fn divide_by_two(dec_num: u32) -> (r: String)
    ensures
        r@ == base_seq(dec_num as int, 2),
{
    let mut n = dec_num;
    let mut rem_stack: Stack<u32> = Stack::new();
    while n > 0
        invariant
            base_seq(dec_num as int, 2) == base_seq(n as int, 2) + stack_digits(rem_stack@),
            forall|j: int| 0 <= j < rem_stack@.len() ==> rem_stack@[j] < 2,
        decreases n,
    {
        let rem = n % 2;
        let ghost s0 = rem_stack@;
        rem_stack.push(rem);
        n = n / 2;
        proof {
            assert(rem_stack@.drop_last() =~= s0);
            assert(base_seq(n as int, 2) + stack_digits(rem_stack@) =~= base_seq(dec_num as int, 2));
        }
    }
    let mut bin: Vec<char> = Vec::new();
    while !rem_stack.is_empty()
        invariant
            base_seq(dec_num as int, 2) == bin@ + stack_digits(rem_stack@),
            forall|j: int| 0 <= j < rem_stack@.len() ==> rem_stack@[j] < 2,
        decreases rem_stack@.len(),
    {
        let rem = rem_stack.pop().unwrap();
        bin.push(if rem == 1 { '1' } else { '0' });
        proof {
            assert(bin@ + stack_digits(rem_stack@) =~= base_seq(dec_num as int, 2));
        }
    }
    proof {
        assert(bin@ =~= bin@ + stack_digits(rem_stack@));
    }
    chars_to_string(&bin)
}

fn to_digit_char(d: u32) -> (c: char)
    requires
        d < 16,
    ensures
        c == digit_char(d as int),
{
    if d == 0 {
        '0'
    } else if d == 1 {
        '1'
    } else if d == 2 {
        '2'
    } else if d == 3 {
        '3'
    } else if d == 4 {
        '4'
    } else if d == 5 {
        '5'
    } else if d == 6 {
        '6'
    } else if d == 7 {
        '7'
    } else if d == 8 {
        '8'
    } else if d == 9 {
        '9'
    } else if d == 10 {
        'A'
    } else if d == 11 {
        'B'
    } else if d == 12 {
        'C'
    } else if d == 13 {
        'D'
    } else if d == 14 {
        'E'
    } else {
        'F'
    }
}

/// The representation of `dec_num` in base `base` (2..=16), with digits
/// `0`..`9` and `A`..`F`; the empty string for zero.
pub fn base_converter(dec_num: u32, base: u32) -> (r: String)
    requires
        2 <= base <= 16,
    ensures
        r@ == base_seq(dec_num as int, base as int),
{
    let mut n = dec_num;
    let mut rem_stack: Stack<u32> = Stack::new();
    while n > 0
        invariant
            2 <= base <= 16,
            base_seq(dec_num as int, base as int) == base_seq(n as int, base as int)
                + stack_digits(rem_stack@),
            forall|j: int| 0 <= j < rem_stack@.len() ==> rem_stack@[j] < base,
        decreases n,
    {
        let rem = n % base;
        let ghost s0 = rem_stack@;
        rem_stack.push(rem);
        n = n / base;
        proof {
            assert(rem_stack@.drop_last() =~= s0);
            assert(base_seq(n as int, base as int) + stack_digits(rem_stack@) =~= base_seq(
                dec_num as int,
                base as int,
            ));
        }
    }
    let mut base_str: Vec<char> = Vec::new();
    while !rem_stack.is_empty()
        invariant
            base_seq(dec_num as int, base as int) == base_str@ + stack_digits(rem_stack@),
            forall|j: int| 0 <= j < rem_stack@.len() ==> rem_stack@[j] < 16,
        decreases rem_stack@.len(),
    {
        let rem = rem_stack.pop().unwrap();
        base_str.push(to_digit_char(rem));
        proof {
            assert(base_str@ + stack_digits(rem_stack@) =~= base_seq(
                dec_num as int,
                base as int,
            ));
        }
    }
    proof {
        assert(base_str@ =~= base_str@ + stack_digits(rem_stack@));
    }
    chars_to_string(&base_str)
}

// ---------------------------------------------------------------------------
// Infix to postfix over whitespace-separated tokens
// ---------------------------------------------------------------------------

/// Code-point lexicographic order on character sequences; on UTF-8 text this
/// is exactly the byte order that `str` comparison uses.
pub open spec fn lex_le(a: Seq<char>, b: Seq<char>) -> bool
    decreases a.len(),
{
    if a.len() == 0 {
        true
    } else if b.len() == 0 {
        false
    } else if (a[0] as u32) < (b[0] as u32) {
        true
    } else if (a[0] as u32) > (b[0] as u32) {
        false
    } else {
        lex_le(a.drop_first(), b.drop_first())
    }
}

/// Lexicographic `a <= b` on code points, as `str` comparison orders UTF-8
/// text.
pub fn str_le(a: &str, b: &str) -> (r: bool)
    ensures
        r == lex_le(a@, b@),
{
    let alen = a.unicode_len();
    let blen = b.unicode_len();
    let mut i: usize = 0;
    proof {
        assert(a@.skip(0) =~= a@);
        assert(b@.skip(0) =~= b@);
    }
    while i < alen && i < blen
        invariant
            alen == a@.len(),
            blen == b@.len(),
            i <= alen,
            i <= blen,
            lex_le(a@, b@) == lex_le(a@.skip(i as int), b@.skip(i as int)),
        decreases alen - i,
    {
        let ca = a.get_char(i);
        let cb = b.get_char(i);
        proof {
            assert(a@.skip(i as int)[0] == a@[i as int]);
            assert(b@.skip(i as int)[0] == b@[i as int]);
            assert(a@.skip(i as int).drop_first() =~= a@.skip(i + 1));
            assert(b@.skip(i as int).drop_first() =~= b@.skip(i + 1));
        }
        if (ca as u32) < (cb as u32) {
            return true;
        }
        if (ca as u32) > (cb as u32) {
            return false;
        }
        i = i + 1;
    }
    proof {
        assert(a@.skip(i as int).len() == a@.len() - i);
        assert(b@.skip(i as int).len() == b@.len() - i);
    }
    i >= alen
}

/// The operand test this converter uses: a token between `"A"` and `"Z"` or
/// between `"0"` and `"9"` in lexicographic order. Multi-character numbers
/// fall in the second range; lower-case words do not count.
pub open spec fn is_operand_tok(t: Seq<char>) -> bool {
    (lex_le(seq!['A'], t) && lex_le(t, seq!['Z'])) || (lex_le(seq!['0'], t) && lex_le(
        t,
        seq!['9'],
    ))
}

fn operand_check(t: &str) -> (b: bool)
    ensures
        b == is_operand_tok(t@),
{
    proof {
        reveal_strlit("A");
        reveal_strlit("Z");
        reveal_strlit("0");
        reveal_strlit("9");
        assert("A"@ =~= seq!['A']);
        assert("Z"@ =~= seq!['Z']);
        assert("0"@ =~= seq!['0']);
        assert("9"@ =~= seq!['9']);
    }
    (str_le("A", t) && str_le(t, "Z")) || (str_le("0", t) && str_le(t, "9"))
}

/// This converter's precedence table: parentheses at 1, `+ -` at 2, `* /`
/// at 3, anything else at 0.
pub open spec fn stack_prec(t: Seq<char>) -> int {
    if t == seq!['('] || t == seq![')'] {
        1
    } else if t == seq!['+'] || t == seq!['-'] {
        2
    } else if t == seq!['*'] || t == seq!['/'] {
        3
    } else {
        0
    }
}

fn stack_prec_of(t: &str) -> (r: i32)
    ensures
        r as int == stack_prec(t@),
{
    if str_sym_check(t, '(') || str_sym_check(t, ')') {
        1
    } else if str_sym_check(t, '+') || str_sym_check(t, '-') {
        2
    } else if str_sym_check(t, '*') || str_sym_check(t, '/') {
        3
    } else {
        0
    }
}

/// A token this converter can handle: an operand, a parenthesis or one of
/// the four operators.
pub open spec fn recognized_tok(t: Seq<char>) -> bool {
    is_operand_tok(t) || is_lparen_tok(t) || is_rparen_tok(t) || is_operator_tok(t)
}

/// The parenthesis nesting depth after the tokens `ts`.
pub open spec fn paren_depth(ts: Seq<Seq<char>>) -> int
    decreases ts.len(),
{
    if ts.len() == 0 {
        0
    } else {
        paren_depth(ts.drop_last()) + (if is_lparen_tok(ts.last()) {
            1int
        } else if is_rparen_tok(ts.last()) {
            -1int
        } else {
            0int
        })
    }
}

/// Every closing parenthesis among `ts` has an opening one before it.
pub open spec fn closes_matched(ts: Seq<Seq<char>>) -> bool {
    forall|k: int| 0 <= k <= ts.len() ==> paren_depth(#[trigger] ts.take(k)) >= 0
}

/// On a closing parenthesis: operators move to the output until the opening
/// parenthesis, which is discarded.
pub open spec fn pop_to_lp2(out: Seq<Seq<char>>, ops: Seq<Seq<char>>) -> (Seq<Seq<char>>, Seq<
    Seq<char>,
>)
    decreases ops.len(),
{
    if ops.len() == 0 {
        (out, ops)
    } else if is_lparen_tok(ops.last()) {
        (out, ops.drop_last())
    } else {
        pop_to_lp2(out.push(ops.last()), ops.drop_last())
    }
}

/// On an operator of precedence `p`: stack entries of precedence at least
/// `p` move to the output.
pub open spec fn pop_ge2(out: Seq<Seq<char>>, ops: Seq<Seq<char>>, p: int) -> (Seq<Seq<char>>, Seq<
    Seq<char>,
>)
    decreases ops.len(),
{
    if ops.len() == 0 {
        (out, ops)
    } else if stack_prec(ops.last()) < p {
        (out, ops)
    } else {
        pop_ge2(out.push(ops.last()), ops.drop_last(), p)
    }
}

/// One step of this converter on state (`out`, `ops`).
pub open spec fn conv2_step(out: Seq<Seq<char>>, ops: Seq<Seq<char>>, t: Seq<char>) -> (Seq<
    Seq<char>,
>, Seq<Seq<char>>) {
    if is_operand_tok(t) {
        (out.push(t), ops)
    } else if is_lparen_tok(t) {
        (out, ops.push(t))
    } else if is_rparen_tok(t) {
        pop_to_lp2(out, ops)
    } else {
        let r = pop_ge2(out, ops, stack_prec(t));
        (r.0, r.1.push(t))
    }
}

/// The converter state after consuming all of `ts`.
pub open spec fn conv2_state(ts: Seq<Seq<char>>) -> (Seq<Seq<char>>, Seq<Seq<char>>)
    decreases ts.len(),
{
    if ts.len() == 0 {
        (Seq::empty(), Seq::empty())
    } else {
        let st = conv2_state(ts.drop_last());
        conv2_step(st.0, st.1, ts.last())
    }
}

/// The postfix token sequence: the output, then the remaining stack entries
/// topmost first.
pub open spec fn spec_stack_postfix(ts: Seq<Seq<char>>) -> Seq<Seq<char>> {
    conv2_state(ts).0 + conv2_state(ts).1.reverse()
}

/// What [`infix_to_posfix`] returns on balanced input: the postfix tokens,
/// each followed by one space.
pub open spec fn spec_stack_infix_to_posfix(s: Seq<char>) -> Seq<char> {
    join_trailing(spec_stack_postfix(spec_split_ws(s)))
}

/// The number of opening parentheses among the stack entries.
pub open spec fn lp_count(ops: Seq<Seq<char>>) -> int
    decreases ops.len(),
{
    if ops.len() == 0 {
        0
    } else {
        lp_count(ops.drop_last()) + (if is_lparen_tok(ops.last()) {
            1int
        } else {
            0int
        })
    }
}

/// Converts a whitespace-separated infix expression to postfix, each output
/// token followed by one space; `None` when the brackets of the input are
/// unbalanced.
///
/// Every whitespace-separated token must be an operand (between `"A"` and
/// `"Z"` or between `"0"` and `"9"` lexicographically), a parenthesis or one
/// of `+ - * /`, and every `)` token must close an earlier `(` token; on
/// any other input this converter would have no precedence or no partner
/// parenthesis to look up.
pub fn infix_to_posfix(infix: &str) -> (r: Option<String>)
    requires
        spec_par_check(infix@) ==> (forall|k: int|
            0 <= k < spec_split_ws(infix@).len() ==> recognized_tok(
                #[trigger] spec_split_ws(infix@)[k],
            )) && closes_matched(spec_split_ws(infix@)),
    ensures
        (r is Some) <==> spec_par_check(infix@),
        r matches Some(out_str) ==> out_str@ == spec_stack_infix_to_posfix(infix@),
{
    if !par_checker(infix) {
        return None;
    }
    let tokens = split_whitespace_tokens(infix);
    let ghost toks = tokens.deep_view();
    let mut out_chars: Vec<char> = Vec::new();
    let ghost mut emitted: Seq<Seq<char>> = Seq::empty();
    let mut op_stack: Vec<String> = Vec::new();
    let mut i: usize = 0;
    while i < tokens.len()
        invariant
            toks == tokens.deep_view(),
            i <= tokens.len(),
            forall|k: int| 0 <= k < toks.len() ==> recognized_tok(#[trigger] toks[k]),
            closes_matched(toks),
            emitted == conv2_state(toks.take(i as int)).0,
            op_stack.deep_view() == conv2_state(toks.take(i as int)).1,
            lp_count(op_stack.deep_view()) == paren_depth(toks.take(i as int)),
            out_chars@ == join_trailing(emitted),
        decreases tokens.len() - i,
    {
        let ghost st = conv2_state(toks.take(i as int));
        let tok = &tokens[i];
        proof {
            assert(tokens.deep_view()[i as int] == tokens@[i as int]@);
            assert(toks.take(i + 1).drop_last() =~= toks.take(i as int));
            assert(toks.take(i + 1).last() == toks[i as int]);
            assert(recognized_tok(toks[i as int]));
        }
        if operand_check(tok.as_str()) {
            append_str_chars(&mut out_chars, tok.as_str());
            out_chars.push(' ');
            proof {
                assert(!is_lparen_tok(tok@) && !is_rparen_tok(tok@)) by {
                    assert(!lex_le(seq!['A'], seq!['(']));
                    assert(!lex_le(seq!['0'], seq!['(']));
                    assert(!lex_le(seq!['A'], seq![')']));
                    assert(!lex_le(seq!['0'], seq![')']));
                }
                let e0 = emitted;
                emitted = emitted.push(tok@);
                assert(emitted.drop_last() =~= e0);
                assert(out_chars@ =~= join_trailing(emitted));
            }
        } else if str_sym_check(tok.as_str(), '(') {
            op_stack.push(tok.clone());
            proof {
                assert(op_stack.deep_view() =~~= st.1.push(tok@));
                assert(st.1.push(tok@).drop_last() =~= st.1);
                assert(lp_count(op_stack.deep_view()) == lp_count(st.1) + 1);
            }
        } else if str_sym_check(tok.as_str(), ')') {
            proof {
                assert(paren_depth(toks.take(i + 1)) >= 0);
                assert(lp_count(op_stack.deep_view()) >= 1);
            }
            while op_stack.len() > 0 && !str_sym_check(op_stack[op_stack.len() - 1].as_str(), '(')
                invariant
                    out_chars@ == join_trailing(emitted),
                    lp_count(op_stack.deep_view()) >= 1,
                    lp_count(op_stack.deep_view()) == paren_depth(toks.take(i as int)),
                    pop_to_lp2(emitted, op_stack.deep_view()) == pop_to_lp2(st.0, st.1),
                decreases op_stack.len(),
            {
                let ghost ops0 = op_stack.deep_view();
                proof {
                    assert(ops0.last() == op_stack@[op_stack@.len() - 1]@);
                    assert(ops0.drop_last().len() < ops0.len());
                }
                let top = op_stack.pop().unwrap();
                append_str_chars(&mut out_chars, top.as_str());
                out_chars.push(' ');
                proof {
                    assert(op_stack.deep_view() =~~= ops0.drop_last());
                    assert(!is_lparen_tok(ops0.last()));
                    assert(lp_count(ops0) == lp_count(ops0.drop_last()));
                    let e0 = emitted;
                    emitted = emitted.push(top@);
                    assert(emitted.drop_last() =~= e0);
                    assert(out_chars@ =~= join_trailing(emitted));
                }
            }
            proof {
                if op_stack@.len() == 0 {
                    assert(lp_count(op_stack.deep_view()) == 0);
                    assert(false);
                }
                assert(op_stack.deep_view().last() == op_stack@[op_stack@.len() - 1]@);
                assert(pop_to_lp2(emitted, op_stack.deep_view()) == (
                    emitted,
                    op_stack.deep_view().drop_last(),
                ));
            }
            let ghost ops1 = op_stack.deep_view();
            let _ = op_stack.pop().unwrap();
            proof {
                assert(op_stack.deep_view() =~~= ops1.drop_last());
            }
        } else {
            let p = stack_prec_of(tok.as_str());
            proof {
                assert(is_operator_tok(toks[i as int]));
                assert(p == 2 || p == 3);
            }
            while op_stack.len() > 0 && stack_prec_of(op_stack[op_stack.len() - 1].as_str()) >= p
                invariant
                    out_chars@ == join_trailing(emitted),
                    p as int == stack_prec(toks[i as int]),
                    i < toks.len(),
                    p >= 2,
                    lp_count(op_stack.deep_view()) == paren_depth(toks.take(i as int)),
                    pop_ge2(emitted, op_stack.deep_view(), stack_prec(toks[i as int])) == pop_ge2(
                        st.0,
                        st.1,
                        stack_prec(toks[i as int]),
                    ),
                decreases op_stack.len(),
            {
                let ghost ops0 = op_stack.deep_view();
                proof {
                    assert(ops0.last() == op_stack@[op_stack@.len() - 1]@);
                    assert(!is_lparen_tok(ops0.last()));
                }
                let top = op_stack.pop().unwrap();
                append_str_chars(&mut out_chars, top.as_str());
                out_chars.push(' ');
                proof {
                    assert(op_stack.deep_view() =~~= ops0.drop_last());
                    let e0 = emitted;
                    emitted = emitted.push(top@);
                    assert(emitted.drop_last() =~= e0);
                    assert(out_chars@ =~= join_trailing(emitted));
                }
            }
            proof {
                if op_stack@.len() > 0 {
                    assert(op_stack.deep_view().last() == op_stack@[op_stack@.len() - 1]@);
                }
                assert(pop_ge2(emitted, op_stack.deep_view(), stack_prec(toks[i as int])) == (
                    emitted,
                    op_stack.deep_view(),
                ));
            }
            let ghost ops2 = op_stack.deep_view();
            op_stack.push(tok.clone());
            proof {
                assert(op_stack.deep_view() =~~= pop_ge2(st.0, st.1, stack_prec(toks[i as int])).1
                    .push(tok@));
                assert(op_stack.deep_view().drop_last() =~= ops2);
                assert(!is_lparen_tok(tok@));
                assert(lp_count(op_stack.deep_view()) == lp_count(ops2));
            }
        }
        i = i + 1;
    }
    proof {
        assert(toks.take(toks.len() as int) =~= toks);
    }
    let ghost fin = conv2_state(toks);
    while op_stack.len() > 0
        invariant
            out_chars@ == join_trailing(emitted),
            emitted + op_stack.deep_view().reverse() == fin.0 + fin.1.reverse(),
        decreases op_stack.len(),
    {
        let ghost ops0 = op_stack.deep_view();
        proof {
            assert(ops0.last() == op_stack@[op_stack@.len() - 1]@);
            assert(ops0.reverse() =~= seq![ops0.last()] + ops0.drop_last().reverse());
        }
        let top = op_stack.pop().unwrap();
        append_str_chars(&mut out_chars, top.as_str());
        out_chars.push(' ');
        proof {
            assert(op_stack.deep_view() =~~= ops0.drop_last());
            let e0 = emitted;
            emitted = emitted.push(top@);
            assert(emitted.drop_last() =~= e0);
            assert(out_chars@ =~= join_trailing(emitted));
            assert(emitted + op_stack.deep_view().reverse() =~= (e0 + ops0.reverse()));
        }
    }
    proof {
        assert(op_stack.deep_view().reverse() =~= Seq::<Seq<char>>::empty());
        assert(emitted =~= emitted + op_stack.deep_view().reverse());
        assert(emitted == spec_stack_postfix(toks));
    }
    Some(chars_to_string(&out_chars))
}


} // verus!
