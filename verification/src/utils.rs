//! Character-level utilities and the expression tokenizer.
//!
//! The tokenizer splits an arithmetic string into number, operator and
//! parenthesis tokens, attaching a minus sign to the following number when it
//! stands where a binary operator cannot.

use vstd::prelude::*;

verus! {

// ---------------------------------------------------------------------------
// Character classes
// ---------------------------------------------------------------------------

/// A decimal digit `0`..=`9`.
pub open spec fn is_digit_char(c: char) -> bool {
    48 <= c as u32 && c as u32 <= 57
}

/// The single characters `+ * / ( )` that always form a token of their own.
/// `-` is not among them: the tokenizer decides between a subtraction
/// operator and a sign attached to the following number.
pub open spec fn is_symbol_char(c: char) -> bool {
    c == '+' || c == '*' || c == '/' || c == '(' || c == ')'
}

/// The Unicode `White_Space` characters, the set that `char::is_whitespace`
/// recognizes.
pub open spec fn is_ws_char(c: char) -> bool {
    let u = c as u32;
    (0x9 <= u && u <= 0xD) || u == 0x20 || u == 0x85 || u == 0xA0 || u == 0x1680 || (0x2000 <= u
        && u <= 0x200A) || u == 0x2028 || u == 0x2029 || u == 0x202F || u == 0x205F || u == 0x3000
}

pub fn digit_check(c: char) -> (b: bool)
    ensures
        b == is_digit_char(c),
{
    let u = c as u32;
    48 <= u && u <= 57
}

pub fn symbol_check(c: char) -> (b: bool)
    ensures
        b == is_symbol_char(c),
{
    c == '+' || c == '*' || c == '/' || c == '(' || c == ')'
}

pub fn ws_check(c: char) -> (b: bool)
    ensures
        b == is_ws_char(c),
{
    let u = c as u32;
    (0x9 <= u && u <= 0xD) || u == 0x20 || u == 0x85 || u == 0xA0 || u == 0x1680 || (0x2000 <= u
        && u <= 0x200A) || u == 0x2028 || u == 0x2029 || u == 0x202F || u == 0x205F || u == 0x3000
}

// ---------------------------------------------------------------------------
// String building
// ---------------------------------------------------------------------------

/// Relies on `String::push`: appends exactly one character at the end.
#[verifier::external_body]
fn push_char(s: &mut String, c: char)
    ensures
        final(s)@ == old(s)@.push(c),
{
    s.push(c);
}

/// Builds the string whose characters are exactly those of `v`, in order.
pub fn chars_to_string(v: &Vec<char>) -> (r: String)
    ensures
        r@ == v@,
{
    let mut r = String::new();
    let mut i: usize = 0;
    while i < v.len()
        invariant
            i <= v.len(),
            r@ == v@.take(i as int),
        decreases v.len() - i,
    {
        push_char(&mut r, v[i]);
        proof {
            assert(v@.take(i + 1) =~= v@.take(i as int).push(v@[i as int]));
        }
        i = i + 1;
    }
    proof {
        assert(v@.take(v@.len() as int) =~= v@);
    }
    r
}

/// Appends the characters of `t` at the end of `out`.
pub fn append_str_chars(out: &mut Vec<char>, t: &str)
    ensures
        final(out)@ == old(out)@ + t@,
{
    let n = t.unicode_len();
    let mut i: usize = 0;
    while i < n
        invariant
            n == t@.len(),
            i <= n,
            out@ == old(out)@ + t@.take(i as int),
        decreases n - i,
    {
        out.push(t.get_char(i));
        proof {
            assert(old(out)@ + t@.take(i + 1) =~= (old(out)@ + t@.take(i as int)).push(
                t@[i as int],
            ));
        }
        i = i + 1;
    }
    proof {
        assert(t@.take(t@.len() as int) =~= t@);
    }
}

/// Whether `t` is the one-character string holding exactly `c`.
pub fn str_sym_check(t: &str, c: char) -> (b: bool)
    ensures
        b == (t@ == seq![c]),
{
    let b = t.unicode_len() == 1 && t.get_char(0) == c;
    proof {
        if t@.len() == 1 {
            assert(t@ =~= seq![t@[0]]);
        }
    }
    b
}

// ---------------------------------------------------------------------------
// The tokenizer
// ---------------------------------------------------------------------------

/// The tokens after which a following `-` is a sign, not an operator:
/// `( + - * /`.
pub open spec fn is_sign_context(t: Seq<char>) -> bool {
    t == seq!['('] || t == seq!['+'] || t == seq!['-'] || t == seq!['*'] || t == seq!['/']
}

/// Emits the token being accumulated, if there is one.
pub open spec fn tok_flush(done: Seq<Seq<char>>, cur: Seq<char>) -> Seq<Seq<char>> {
    if cur.len() == 0 {
        done
    } else {
        done.push(cur)
    }
}

/// Whether a `-` read in state (`done`, `cur`) starts a negative number:
/// nothing is being accumulated, and either no token has been emitted yet or
/// the last one is an operator or an opening parenthesis.
pub open spec fn minus_attaches(done: Seq<Seq<char>>, cur: Seq<char>) -> bool {
    cur.len() == 0 && (done.len() == 0 || is_sign_context(done.last()))
}

/// One step of the tokenizer: `done` holds the tokens emitted so far and
/// `cur` the token being accumulated.
pub open spec fn tok_step(done: Seq<Seq<char>>, cur: Seq<char>, c: char) -> (Seq<Seq<char>>, Seq<
    char,
>) {
    if is_digit_char(c) || c == '.' {
        (done, cur.push(c))
    } else if c == '-' {
        if minus_attaches(done, cur) {
            (done, cur.push(c))
        } else {
            (tok_flush(done, cur).push(seq!['-']), Seq::empty())
        }
    } else if is_symbol_char(c) {
        (tok_flush(done, cur).push(seq![c]), Seq::empty())
    } else if is_ws_char(c) {
        (tok_flush(done, cur), Seq::empty())
    } else {
        (done, cur.push(c))
    }
}

/// The tokenizer state after reading all of `s`.
pub open spec fn tok_state(s: Seq<char>) -> (Seq<Seq<char>>, Seq<char>)
    decreases s.len(),
{
    if s.len() == 0 {
        (Seq::empty(), Seq::empty())
    } else {
        let st = tok_state(s.drop_last());
        tok_step(st.0, st.1, s.last())
    }
}

/// The token sequence of `s`: run the tokenizer, then emit what is still
/// being accumulated.
pub open spec fn spec_tokenize(s: Seq<char>) -> Seq<Seq<char>> {
    tok_flush(tok_state(s).0, tok_state(s).1)
}

fn sign_context_check(t: &Vec<char>) -> (b: bool)
    ensures
        b == is_sign_context(t@),
{
    let b = t.len() == 1 && (t[0] == '(' || t[0] == '+' || t[0] == '-' || t[0] == '*' || t[0]
        == '/');
    proof {
        if t@.len() == 1 {
            assert(t@ =~= seq![t@[0]]);
        }
    }
    b
}

/// Splits an arithmetic string into tokens: digits and `.` accumulate into
/// numbers, `+ * / ( )` stand alone, whitespace separates, any other
/// character accumulates, and `-` attaches to the following number exactly
/// when it cannot be a binary operator.
pub fn token(s: &str) -> (r: Vec<String>)
    ensures
        r.deep_view() == spec_tokenize(s@),
{
    let n = s.unicode_len();
    let mut done: Vec<Vec<char>> = Vec::new();
    let mut cur: Vec<char> = Vec::new();
    let mut i: usize = 0;
    while i < n
        invariant
            n == s@.len(),
            i <= n,
            done.deep_view() == tok_state(s@.take(i as int)).0,
            cur@ == tok_state(s@.take(i as int)).1,
        decreases n - i,
    {
        let ghost pre = s@.take(i as int);
        let ghost st = tok_state(pre);
        let c = s.get_char(i);
        proof {
            assert(s@.take(i + 1).drop_last() =~= pre);
            assert(s@.take(i + 1).last() == s@[i as int]);
        }
        if digit_check(c) || c == '.' {
            cur.push(c);
        } else if c == '-' {
            let attach = cur.len() == 0 && (done.len() == 0 || sign_context_check(
                &done[done.len() - 1],
            ));
            proof {
                assert(done@.len() == st.0.len());
                if done@.len() > 0 {
                    assert(done.deep_view()[done@.len() - 1] == done@[done@.len() - 1]@);
                }
                assert(attach == minus_attaches(st.0, st.1));
            }
            if attach {
                cur.push(c);
            } else {
                if cur.len() > 0 {
                    done.push(cur);
                    cur = Vec::new();
                }
                let mut m: Vec<char> = Vec::new();
                m.push('-');
                done.push(m);
                proof {
                    assert(done.deep_view() =~~= tok_flush(st.0, st.1).push(seq!['-']));
                }
            }
        } else if symbol_check(c) {
            if cur.len() > 0 {
                done.push(cur);
                cur = Vec::new();
            }
            let mut m: Vec<char> = Vec::new();
            m.push(c);
            done.push(m);
            proof {
                assert(done.deep_view() =~~= tok_flush(st.0, st.1).push(seq![c]));
            }
        } else if ws_check(c) {
            if cur.len() > 0 {
                done.push(cur);
                cur = Vec::new();
            }
            proof {
                assert(done.deep_view() =~~= tok_flush(st.0, st.1));
            }
        } else {
            cur.push(c);
        }
        i = i + 1;
    }
    proof {
        assert(s@.take(n as int) =~= s@);
    }
    if cur.len() > 0 {
        done.push(cur);
    }
    proof {
        assert(done.deep_view() =~~= spec_tokenize(s@));
    }
    let mut r: Vec<String> = Vec::new();
    let mut j: usize = 0;
    while j < done.len()
        invariant
            j <= done.len(),
            r.deep_view() == done.deep_view().take(j as int),
        decreases done.len() - j,
    {
        let ghost d = r.deep_view();
        let t = chars_to_string(&done[j]);
        let ghost ts = t@;
        r.push(t);
        proof {
            assert(r.deep_view() =~~= d.push(ts));
            assert(done.deep_view()[j as int] == done@[j as int]@);
            assert(d.push(ts) =~= done.deep_view().take(j + 1));
        }
        j = j + 1;
    }
    proof {
        assert(done.deep_view().take(done@.len() as int) =~~= done.deep_view());
    }
    r
}

// ---------------------------------------------------------------------------
// Joining tokens into a string
// ---------------------------------------------------------------------------

/// The tokens joined with a single space between them.
pub open spec fn join_with_spaces(ts: Seq<Seq<char>>) -> Seq<char>
    decreases ts.len(),
{
    if ts.len() == 0 {
        Seq::empty()
    } else if ts.len() == 1 {
        ts[0]
    } else {
        join_with_spaces(ts.drop_last()) + seq![' '] + ts.last()
    }
}

/// The tokens each followed by a single space: what the converter
/// accumulates before trimming the end.
pub open spec fn join_trailing(ts: Seq<Seq<char>>) -> Seq<char>
    decreases ts.len(),
{
    if ts.len() == 0 {
        Seq::empty()
    } else {
        join_trailing(ts.drop_last()) + ts.last() + seq![' ']
    }
}

// ---------------------------------------------------------------------------
// Whitespace splitting
// ---------------------------------------------------------------------------

/// One step of whitespace splitting: whitespace ends the token being
/// accumulated, any other character extends it.
pub open spec fn split_step(done: Seq<Seq<char>>, cur: Seq<char>, c: char) -> (Seq<Seq<char>>, Seq<
    char,
>) {
    if is_ws_char(c) {
        (tok_flush(done, cur), Seq::empty())
    } else {
        (done, cur.push(c))
    }
}

/// The splitter state after reading all of `s`.
pub open spec fn split_state(s: Seq<char>) -> (Seq<Seq<char>>, Seq<char>)
    decreases s.len(),
{
    if s.len() == 0 {
        (Seq::empty(), Seq::empty())
    } else {
        let st = split_state(s.drop_last());
        split_step(st.0, st.1, s.last())
    }
}

/// The maximal whitespace-free runs of `s`, in order: what
/// `str::split_whitespace` yields.
pub open spec fn spec_split_ws(s: Seq<char>) -> Seq<Seq<char>> {
    tok_flush(split_state(s).0, split_state(s).1)
}

/// Splits `s` at whitespace, dropping the whitespace itself.
pub fn split_whitespace_tokens(s: &str) -> (r: Vec<String>)
    ensures
        r.deep_view() == spec_split_ws(s@),
{
    let n = s.unicode_len();
    let mut done: Vec<Vec<char>> = Vec::new();
    let mut cur: Vec<char> = Vec::new();
    let mut i: usize = 0;
    while i < n
        invariant
            n == s@.len(),
            i <= n,
            done.deep_view() == split_state(s@.take(i as int)).0,
            cur@ == split_state(s@.take(i as int)).1,
        decreases n - i,
    {
        let ghost pre = s@.take(i as int);
        let ghost st = split_state(pre);
        let c = s.get_char(i);
        proof {
            assert(s@.take(i + 1).drop_last() =~= pre);
            assert(s@.take(i + 1).last() == s@[i as int]);
        }
        if ws_check(c) {
            if cur.len() > 0 {
                done.push(cur);
                cur = Vec::new();
            }
            proof {
                assert(done.deep_view() =~~= tok_flush(st.0, st.1));
            }
        } else {
            cur.push(c);
        }
        i = i + 1;
    }
    proof {
        assert(s@.take(n as int) =~= s@);
    }
    if cur.len() > 0 {
        done.push(cur);
    }
    proof {
        assert(done.deep_view() =~~= spec_split_ws(s@));
    }
    let mut r: Vec<String> = Vec::new();
    let mut j: usize = 0;
    while j < done.len()
        invariant
            j <= done.len(),
            r.deep_view() == done.deep_view().take(j as int),
        decreases done.len() - j,
    {
        let ghost d = r.deep_view();
        let t = chars_to_string(&done[j]);
        let ghost ts = t@;
        r.push(t);
        proof {
            assert(r.deep_view() =~~= d.push(ts));
            assert(done.deep_view()[j as int] == done@[j as int]@);
            assert(d.push(ts) =~= done.deep_view().take(j + 1));
        }
        j = j + 1;
    }
    proof {
        assert(done.deep_view().take(done@.len() as int) =~~= done.deep_view());
    }
    r
}

// ---------------------------------------------------------------------------
// Tokenizing is idempotent across re-joining
// ---------------------------------------------------------------------------

/// The tokenizer state after reading `s`, started from (`done`, `cur`).
pub open spec fn tok_run_from(s: Seq<char>, done: Seq<Seq<char>>, cur: Seq<char>) -> (Seq<
    Seq<char>,
>, Seq<char>)
    decreases s.len(),
{
    if s.len() == 0 {
        (done, cur)
    } else {
        let st = tok_run_from(s.drop_last(), done, cur);
        tok_step(st.0, st.1, s.last())
    }
}

proof fn lemma_tok_state_is_run(s: Seq<char>)
    ensures
        tok_state(s) == tok_run_from(s, Seq::empty(), Seq::empty()),
    decreases s.len(),
{
    if s.len() > 0 {
        lemma_tok_state_is_run(s.drop_last());
    }
}

proof fn lemma_run_concat(a: Seq<char>, b: Seq<char>, done: Seq<Seq<char>>, cur: Seq<char>)
    ensures
        tok_run_from(a + b, done, cur) == tok_run_from(
            b,
            tok_run_from(a, done, cur).0,
            tok_run_from(a, done, cur).1,
        ),
    decreases b.len(),
{
    if b.len() == 0 {
        assert(a + b =~= a);
    } else {
        assert((a + b).drop_last() =~= a + b.drop_last());
        assert((a + b).last() == b.last());
        lemma_run_concat(a, b.drop_last(), done, cur);
    }
}

/// A single-symbol token the tokenizer emits on its own: `+ * / ( )`.
pub open spec fn is_symbol_tok(t: Seq<char>) -> bool {
    t == seq!['('] || t == seq![')'] || t == seq!['+'] || t == seq!['*'] || t == seq!['/']
}

/// A token built by accumulation: nonempty, free of whitespace and of the
/// stand-alone symbols, with `-` possible only in front.
pub open spec fn acc_token(t: Seq<char>) -> bool {
    t.len() > 0 && forall|j: int|
        0 <= j < t.len() ==> !is_ws_char(#[trigger] t[j]) && !is_symbol_char(t[j]) && (t[j] == '-'
            ==> j == 0)
}

/// A token as the tokenizer emits it.
pub open spec fn wf_token(t: Seq<char>) -> bool {
    is_symbol_tok(t) || acc_token(t)
}

/// The shape of every token sequence the tokenizer produces: each token
/// well-formed, and a multi-character token led by `-` standing only at the
/// start or after one of `( + - * /` — the places where a minus attaches.
pub open spec fn good_tokens(ts: Seq<Seq<char>>) -> bool {
    (forall|i: int| 0 <= i < ts.len() ==> wf_token(#[trigger] ts[i])) && (forall|i: int|
        0 <= i < ts.len() && (#[trigger] ts[i]).len() > 1 && ts[i][0] == '-' ==> (i == 0
            || is_sign_context(ts[i - 1])))
}

/// What holds of every reachable tokenizer state: the emitted tokens have
/// the shape above, the accumulation is a partial such token, and one led by
/// `-` began where a minus attaches.
pub open spec fn tok_inv(done: Seq<Seq<char>>, cur: Seq<char>) -> bool {
    good_tokens(done) && (cur.len() > 0 ==> acc_token(cur)) && (cur.len() > 0 && cur[0] == '-'
        ==> (done.len() == 0 || is_sign_context(done.last())))
}

proof fn lemma_flush_good(done: Seq<Seq<char>>, cur: Seq<char>)
    requires
        tok_inv(done, cur),
    ensures
        good_tokens(tok_flush(done, cur)),
{
    if cur.len() > 0 {
        let ts = done.push(cur);
        assert forall|i: int| 0 <= i < ts.len() implies wf_token(#[trigger] ts[i]) by {
            if i < done.len() {
                assert(ts[i] == done[i]);
            } else {
                assert(ts[i] == cur);
            }
        }
        assert forall|i: int|
            0 <= i < ts.len() && (#[trigger] ts[i]).len() > 1 && ts[i][0] == '-' implies (i == 0
            || is_sign_context(ts[i - 1])) by {
            if i < done.len() {
                assert(ts[i] == done[i]);
                if i > 0 {
                    assert(ts[i - 1] == done[i - 1]);
                }
            } else {
                assert(ts[i] == cur);
                if i > 0 {
                    assert(ts[i - 1] == done[i - 1]);
                }
            }
        }
    }
}

proof fn lemma_push_short_good(done: Seq<Seq<char>>, t: Seq<char>)
    requires
        good_tokens(done),
        wf_token(t),
        t.len() == 1,
    ensures
        good_tokens(done.push(t)),
{
    let ts = done.push(t);
    assert forall|i: int| 0 <= i < ts.len() implies wf_token(#[trigger] ts[i]) by {
        if i < done.len() {
            assert(ts[i] == done[i]);
        } else {
            assert(ts[i] == t);
        }
    }
    assert forall|i: int|
        0 <= i < ts.len() && (#[trigger] ts[i]).len() > 1 && ts[i][0] == '-' implies (i == 0
        || is_sign_context(ts[i - 1])) by {
        assert(i < done.len());
        assert(ts[i] == done[i]);
        if i > 0 {
            assert(ts[i - 1] == done[i - 1]);
        }
    }
}

proof fn lemma_tok_inv(s: Seq<char>)
    ensures
        tok_inv(tok_state(s).0, tok_state(s).1),
    decreases s.len(),
{
    if s.len() > 0 {
        lemma_tok_inv(s.drop_last());
        let st = tok_state(s.drop_last());
        let c = s.last();
        let fl = tok_flush(st.0, st.1);
        lemma_flush_good(st.0, st.1);
        if is_digit_char(c) || c == '.' || (c == '-' && minus_attaches(st.0, st.1)) || (!(
        is_digit_char(c) || c == '.') && c != '-' && !is_symbol_char(c) && !is_ws_char(c)) {
            let cur2 = st.1.push(c);
            assert forall|j: int|
                0 <= j < cur2.len() implies !is_ws_char(#[trigger] cur2[j]) && !is_symbol_char(
                cur2[j],
            ) && (cur2[j] == '-' ==> j == 0) by {
                if j < st.1.len() {
                    assert(cur2[j] == st.1[j]);
                } else {
                    assert(cur2[j] == c);
                }
            }
            assert(acc_token(cur2));
            if st.1.len() > 0 {
                assert(cur2[0] == st.1[0]);
            } else {
                assert(cur2[0] == c);
            }
        } else if c == '-' {
            assert(wf_token(seq!['-'])) by {
                assert(acc_token(seq!['-']));
            }
            lemma_push_short_good(fl, seq!['-']);
        } else if is_symbol_char(c) {
            assert(wf_token(seq![c])) by {
                if c == '(' {
                    assert(seq![c] =~= seq!['(']);
                } else if c == ')' {
                    assert(seq![c] =~= seq![')']);
                } else if c == '+' {
                    assert(seq![c] =~= seq!['+']);
                } else if c == '*' {
                    assert(seq![c] =~= seq!['*']);
                } else {
                    assert(seq![c] =~= seq!['/']);
                }
            }
            lemma_push_short_good(fl, seq![c]);
        } else {
            assert(is_ws_char(c));
        }
    }
}

proof fn lemma_run_acc(done: Seq<Seq<char>>, t: Seq<char>, j: int)
    requires
        acc_token(t),
        1 <= j <= t.len(),
        t[0] == '-' ==> done.len() == 0 || is_sign_context(done.last()),
    ensures
        tok_run_from(t.take(j), done, Seq::empty()) == (done, t.take(j)),
    decreases j,
{
    if j == 1 {
        assert(t.take(1).drop_last() =~= Seq::<char>::empty());
        assert(t.take(1).last() == t[0]);
        assert(tok_run_from(Seq::empty(), done, Seq::empty()) == (done, Seq::<char>::empty()));
        assert(t.take(1) =~= Seq::<char>::empty().push(t[0]));
    } else {
        lemma_run_acc(done, t, j - 1);
        assert(t.take(j).drop_last() =~= t.take(j - 1));
        assert(t.take(j).last() == t[j - 1]);
        assert(t.take(j) =~= t.take(j - 1).push(t[j - 1]));
    }
}

proof fn lemma_run_token(done: Seq<Seq<char>>, t: Seq<char>)
    requires
        wf_token(t),
        t.len() > 1 && t[0] == '-' ==> done.len() == 0 || is_sign_context(done.last()),
    ensures
        tok_flush(
            tok_run_from(t, done, Seq::empty()).0,
            tok_run_from(t, done, Seq::empty()).1,
        ) == done.push(t),
        tok_run_from(t, done, Seq::empty()) == (done, t) || tok_run_from(t, done, Seq::empty())
            == (done.push(t), Seq::<char>::empty()),
{
    if is_symbol_tok(t) {
        assert(t.drop_last() =~= Seq::<char>::empty());
        assert(tok_run_from(Seq::empty(), done, Seq::empty()) == (done, Seq::<char>::empty()));
        assert(t.last() == t[0]);
        assert(seq![t[0]] =~= t);
        assert(tok_run_from(t, done, Seq::empty()) == (done.push(t), Seq::<char>::empty()));
    } else if t[0] == '-' && t.len() == 1 && done.len() > 0 && !is_sign_context(done.last()) {
        assert(t.drop_last() =~= Seq::<char>::empty());
        assert(tok_run_from(Seq::empty(), done, Seq::empty()) == (done, Seq::<char>::empty()));
        assert(t.last() == t[0]);
        assert(seq!['-'] =~= t);
        assert(tok_run_from(t, done, Seq::empty()) == (done.push(t), Seq::<char>::empty()));
    } else {
        lemma_run_acc(done, t, t.len() as int);
        assert(t.take(t.len() as int) =~= t);
    }
}

proof fn lemma_retokenize_run(ts: Seq<Seq<char>>)
    requires
        good_tokens(ts),
    ensures
        tok_flush(
            tok_run_from(join_with_spaces(ts), Seq::empty(), Seq::empty()).0,
            tok_run_from(join_with_spaces(ts), Seq::empty(), Seq::empty()).1,
        ) == ts,
    decreases ts.len(),
{
    let e: Seq<Seq<char>> = Seq::empty();
    let ec: Seq<char> = Seq::empty();
    if ts.len() == 0 {
        assert(tok_run_from(join_with_spaces(ts), e, ec) == (e, ec));
        assert(tok_flush(e, ec) =~~= ts);
    } else if ts.len() == 1 {
        assert(join_with_spaces(ts) == ts[0]);
        lemma_run_token(e, ts[0]);
        assert(e.push(ts[0]) =~~= ts);
    } else {
        let prefix = ts.drop_last();
        assert forall|i: int| 0 <= i < prefix.len() implies wf_token(#[trigger] prefix[i]) by {
            assert(prefix[i] == ts[i]);
        }
        assert forall|i: int|
            0 <= i < prefix.len() && (#[trigger] prefix[i]).len() > 1 && prefix[i][0] == '-'
            implies (i == 0 || is_sign_context(prefix[i - 1])) by {
            assert(prefix[i] == ts[i]);
            if i > 0 {
                assert(prefix[i - 1] == ts[i - 1]);
            }
        }
        lemma_retokenize_run(prefix);
        let j1 = join_with_spaces(prefix);
        let st1 = tok_run_from(j1, e, ec);
        lemma_run_concat(j1, seq![' '], e, ec);
        assert(seq![' '].drop_last() =~= ec);
        assert(seq![' '].last() == ' ');
        let st2 = tok_run_from(seq![' '], st1.0, st1.1);
        assert(tok_run_from(ec, st1.0, st1.1) == (st1.0, st1.1));
        assert(st2 == tok_step(st1.0, st1.1, ' '));
        assert(is_ws_char(' '));
        assert(st2 == (prefix, ec));
        lemma_run_token(prefix, ts.last());
        lemma_run_concat(j1 + seq![' '], ts.last(), e, ec);
        assert(tok_run_from(j1 + seq![' '], e, ec) == st2);
        assert((j1 + seq![' ']) + ts.last() =~= join_with_spaces(ts));
        assert(prefix.push(ts.last()) =~~= ts);
    }
}

/// Every token sequence the tokenizer produces has the shape
/// [`good_tokens`] describes.
pub proof fn lemma_tokenize_good(s: Seq<char>)
    ensures
        good_tokens(spec_tokenize(s)),
{
    lemma_tok_inv(s);
    lemma_flush_good(tok_state(s).0, tok_state(s).1);
}

/// Tokenizing is idempotent across re-joining: joining the tokens of `s`
/// with single spaces and tokenizing the result yields the same tokens.
pub proof fn lemma_token_rejoin(s: Seq<char>)
    ensures
        spec_tokenize(join_with_spaces(spec_tokenize(s))) == spec_tokenize(s),
{
    lemma_tok_inv(s);
    lemma_flush_good(tok_state(s).0, tok_state(s).1);
    lemma_retokenize_run(spec_tokenize(s));
    lemma_tok_state_is_run(join_with_spaces(spec_tokenize(s)));
}


// ---------------------------------------------------------------------------
// Splitting at whitespace undoes joining with single spaces
// ---------------------------------------------------------------------------

/// Nonempty tokens free of whitespace: what joining with single spaces can
/// reproduce.
pub open spec fn spaceless_tokens(ts: Seq<Seq<char>>) -> bool {
    forall|i: int|
        0 <= i < ts.len() ==> (#[trigger] ts[i]).len() > 0 && forall|j: int|
            0 <= j < ts[i].len() ==> !is_ws_char(#[trigger] ts[i][j])
}

/// The splitter state after reading `s`, started from (`done`, `cur`).
pub open spec fn split_run_from(s: Seq<char>, done: Seq<Seq<char>>, cur: Seq<char>) -> (Seq<
    Seq<char>,
>, Seq<char>)
    decreases s.len(),
{
    if s.len() == 0 {
        (done, cur)
    } else {
        let st = split_run_from(s.drop_last(), done, cur);
        split_step(st.0, st.1, s.last())
    }
}

proof fn lemma_split_state_is_run(s: Seq<char>)
    ensures
        split_state(s) == split_run_from(s, Seq::empty(), Seq::empty()),
    decreases s.len(),
{
    if s.len() > 0 {
        lemma_split_state_is_run(s.drop_last());
    }
}

proof fn lemma_split_concat(a: Seq<char>, b: Seq<char>, done: Seq<Seq<char>>, cur: Seq<char>)
    ensures
        split_run_from(a + b, done, cur) == split_run_from(
            b,
            split_run_from(a, done, cur).0,
            split_run_from(a, done, cur).1,
        ),
    decreases b.len(),
{
    if b.len() == 0 {
        assert(a + b =~= a);
    } else {
        assert((a + b).drop_last() =~= a + b.drop_last());
        assert((a + b).last() == b.last());
        lemma_split_concat(a, b.drop_last(), done, cur);
    }
}

proof fn lemma_split_token(done: Seq<Seq<char>>, t: Seq<char>, j: int)
    requires
        t.len() > 0,
        forall|k: int| 0 <= k < t.len() ==> !is_ws_char(#[trigger] t[k]),
        1 <= j <= t.len(),
    ensures
        split_run_from(t.take(j), done, Seq::empty()) == (done, t.take(j)),
    decreases j,
{
    if j == 1 {
        assert(t.take(1).drop_last() =~= Seq::<char>::empty());
        assert(split_run_from(Seq::empty(), done, Seq::empty()) == (
            done,
            Seq::<char>::empty(),
        ));
        assert(t.take(1).last() == t[0]);
        assert(t.take(1) =~= Seq::<char>::empty().push(t[0]));
    } else {
        lemma_split_token(done, t, j - 1);
        assert(t.take(j).drop_last() =~= t.take(j - 1));
        assert(t.take(j).last() == t[j - 1]);
        assert(t.take(j) =~= t.take(j - 1).push(t[j - 1]));
    }
}

proof fn lemma_split_rejoin_run(ts: Seq<Seq<char>>)
    requires
        spaceless_tokens(ts),
    ensures
        ts.len() == 0 ==> split_run_from(join_with_spaces(ts), Seq::empty(), Seq::empty()) == (
            Seq::<Seq<char>>::empty(),
            Seq::<char>::empty(),
        ),
        ts.len() > 0 ==> split_run_from(join_with_spaces(ts), Seq::empty(), Seq::empty()) == (
            ts.drop_last(),
            ts.last(),
        ),
    decreases ts.len(),
{
    let e: Seq<Seq<char>> = Seq::empty();
    let ec: Seq<char> = Seq::empty();
    if ts.len() == 0 {
    } else if ts.len() == 1 {
        assert(join_with_spaces(ts) == ts[0]);
        lemma_split_token(e, ts[0], ts[0].len() as int);
        assert(ts[0].take(ts[0].len() as int) =~= ts[0]);
        assert(ts.drop_last() =~= e);
        assert(ts.last() == ts[0]);
    } else {
        let prefix = ts.drop_last();
        assert forall|i: int|
            0 <= i < prefix.len() implies (#[trigger] prefix[i]).len() > 0 && forall|j: int|
            0 <= j < prefix[i].len() ==> !is_ws_char(#[trigger] prefix[i][j]) by {
            assert(prefix[i] == ts[i]);
        }
        lemma_split_rejoin_run(prefix);
        let j1 = join_with_spaces(prefix);
        let st1 = split_run_from(j1, e, ec);
        lemma_split_concat(j1, seq![' '], e, ec);
        assert(seq![' '].drop_last() =~= ec);
        assert(seq![' '].last() == ' ');
        assert(split_run_from(ec, st1.0, st1.1) == (st1.0, st1.1));
        let st2 = split_run_from(seq![' '], st1.0, st1.1);
        assert(st2 == split_step(st1.0, st1.1, ' '));
        assert(is_ws_char(' '));
        assert(prefix.len() > 0);
        assert(st1 == (prefix.drop_last(), prefix.last()));
        assert(tok_flush(prefix.drop_last(), prefix.last()) == prefix);
        assert(st2 == (prefix, ec));
        let t = ts.last();
        assert(t.len() > 0 && forall|k: int| 0 <= k < t.len() ==> !is_ws_char(#[trigger] t[k]));
        lemma_split_token(prefix, t, t.len() as int);
        assert(t.take(t.len() as int) =~= t);
        lemma_split_concat(j1 + seq![' '], t, e, ec);
        assert(split_run_from(j1 + seq![' '], e, ec) == st2);
        assert((j1 + seq![' ']) + t =~= join_with_spaces(ts));
    }
}

/// Splitting at whitespace undoes joining with single spaces, for nonempty
/// whitespace-free tokens.
pub proof fn lemma_split_rejoin(ts: Seq<Seq<char>>)
    requires
        spaceless_tokens(ts),
    ensures
        spec_split_ws(join_with_spaces(ts)) == ts,
{
    lemma_split_rejoin_run(ts);
    lemma_split_state_is_run(join_with_spaces(ts));
    if ts.len() > 0 {
        assert(ts.last().len() > 0);
        assert(tok_flush(ts.drop_last(), ts.last()) == ts);
    } else {
        assert(tok_flush(Seq::empty(), Seq::empty()) =~~= ts);
    }
}


} // verus!
