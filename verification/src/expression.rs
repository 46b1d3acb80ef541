//! The conditional-expression language: tokenizer and evaluator.
//!
//! An expression is split into operator and operand tokens by a left-to-right
//! scan that prefers longer operator lexemes (`>=` before `>`). The operators
//! are `&& || ! == > >= < <= ( )`. Every maximal run of other characters
//! becomes one operand token, trimmed of surrounding whitespace; runs that
//! trim to nothing are dropped.
//!
//! Evaluation walks the tokens once, folding binary operators left to right
//! with no precedence. `!` is unary: it negates the truthiness of the
//! operand or parenthesized group immediately following it (two negations
//! cancel), and a pending binary operator then consumes that negated value
//! as its right operand. Parentheses group: the parenthesized result is
//! folded into the surrounding context exactly as an operand would be. A
//! binary operator whose right operand never arrives — another binary
//! operator follows directly, or the tokens run out — folds against null.
//! A closing parenthesis that nothing opened closes nothing: the inner
//! value simply carries on. The result is `true` exactly when the final
//! value is boolean true.

use vstd::prelude::*;
use crate::values::{
    Value, Val, val_model, val_wf, spec_resolve, spec_truthy, find_value_by_dotted_path,
    value_eq,
};

verus! {

/// Whitespace as operand trimming understands it.
pub open spec fn is_space(c: char) -> bool {
    c == ' ' || c == '\t' || c == '\n' || c == '\r'
}

pub open spec fn trim_front(s: Seq<char>) -> Seq<char>
    decreases s.len(),
{
    if s.len() > 0 && is_space(s[0]) {
        trim_front(s.skip(1))
    } else {
        s
    }
}

pub open spec fn trim_back(s: Seq<char>) -> Seq<char>
    decreases s.len(),
{
    if s.len() > 0 && is_space(s.last()) {
        trim_back(s.drop_last())
    } else {
        s
    }
}

/// A token with its surrounding whitespace removed.
pub open spec fn trim(s: Seq<char>) -> Seq<char> {
    trim_back(trim_front(s))
}

/// The two-character operator lexemes.
pub open spec fn is_two_char_op(a: char, b: char) -> bool {
    (a == '&' && b == '&') || (a == '|' && b == '|') || (a == '=' && b == '=') || (a == '>' && b
        == '=') || (a == '<' && b == '=')
}

/// The one-character operator lexemes.
pub open spec fn is_one_char_op(a: char) -> bool {
    a == '!' || a == '>' || a == '<' || a == '(' || a == ')'
}

/// The length of the operator lexeme at the front of `s`: the longer lexeme
/// wins where both would match, and zero means no operator starts here.
pub open spec fn op_len(s: Seq<char>) -> nat {
    if s.len() >= 2 && is_two_char_op(s[0], s[1]) {
        2
    } else if s.len() >= 1 && is_one_char_op(s[0]) {
        1
    } else {
        0
    }
}

/// Whether a whole token is one operator lexeme.
pub open spec fn is_op_token(t: Seq<char>) -> bool {
    (t.len() == 2 && is_two_char_op(t[0], t[1])) || (t.len() == 1 && is_one_char_op(t[0]))
}

/// The trimmed operand run, as zero tokens when blank or one token else.
pub open spec fn emit_run(run: Seq<char>) -> Seq<Seq<char>> {
    if trim(run).len() == 0 {
        seq![]
    } else {
        seq![trim(run)]
    }
}

/// The scan over the rest of the input with the operand run read so far.
pub open spec fn scan(s: Seq<char>, run: Seq<char>) -> Seq<Seq<char>>
    decreases s.len(),
{
    if s.len() == 0 {
        emit_run(run)
    } else {
        let l = op_len(s);
        if l > 0 {
            emit_run(run) + seq![s.take(l as int)] + scan(s.skip(l as int), Seq::empty())
        } else {
            scan(s.skip(1), run.push(s[0]))
        }
    }
}

/// The tokens of an expression.
pub open spec fn tokenize(s: Seq<char>) -> Seq<Seq<char>> {
    scan(s, Seq::empty())
}

fn is_space_char(c: char) -> (r: bool)
    ensures
        r == is_space(c),
{
    c == ' ' || c == '\t' || c == '\n' || c == '\r'
}

/// The trimmed copy of `s[from..to]`.
#[verifier::loop_isolation(false)]
fn trimmed_substring(s: &str, from: usize, to: usize) -> (r: String)
    requires
        from <= to <= s@.len(),
    ensures
        r@ == trim(s@.subrange(from as int, to as int)),
{
    let mut a = from;
    while a < to && is_space_char(s.get_char(a))
        invariant
            from <= a <= to,
            trim_front(s@.subrange(from as int, to as int)) == trim_front(
                s@.subrange(a as int, to as int),
            ),
        decreases to - a,
    {
        proof {
            assert(s@.subrange(a as int, to as int)[0] == s@[a as int]);
            assert(s@.subrange(a as int, to as int).skip(1) =~= s@.subrange(a + 1, to as int));
        }
        a = a + 1;
    }
    proof {
        assert(trim_front(s@.subrange(a as int, to as int)) == s@.subrange(a as int, to as int));
    }
    let mut b = to;
    while b > a && is_space_char(s.get_char(b - 1))
        invariant
            a <= b <= to,
            trim_back(s@.subrange(a as int, to as int)) == trim_back(
                s@.subrange(a as int, b as int),
            ),
        decreases b,
    {
        proof {
            assert(s@.subrange(a as int, b as int).last() == s@[b - 1]);
            assert(s@.subrange(a as int, b as int).drop_last() =~= s@.subrange(a as int, b - 1));
        }
        b = b - 1;
    }
    proof {
        assert(trim_back(s@.subrange(a as int, b as int)) == s@.subrange(a as int, b as int));
    }
    s.substring_char(a, b).to_owned()
}

/// Parses an expression into operator and operand tokens, in input order.
#[verifier::loop_isolation(false)]
pub fn parse_expression(expression: &str) -> (r: Vec<String>)
    ensures
        r@.map_values(|t: String| t@) == tokenize(expression@),
{
    let n = expression.unicode_len();
    let mut out: Vec<String> = Vec::new();
    let mut run_start: usize = 0;
    let mut i: usize = 0;
    proof {
        assert(expression@.skip(0) =~= expression@);
        assert(expression@.subrange(0, 0) =~= Seq::<char>::empty());
        assert(out@.map_values(|t: String| t@) =~= Seq::<Seq<char>>::empty());
        assert(Seq::<Seq<char>>::empty() + tokenize(expression@) =~= tokenize(expression@));
    }
    while i < n
        invariant
            run_start <= i <= n,
            n == expression@.len(),
            out@.map_values(|t: String| t@) + scan(
                expression@.skip(i as int),
                expression@.subrange(run_start as int, i as int),
            ) == tokenize(expression@),
        decreases n - i,
    {
        let ghost rest = expression@.skip(i as int);
        let ghost run = expression@.subrange(run_start as int, i as int);
        let c = expression.get_char(i);
        proof {
            assert(rest[0] == c);
        }
        let two: usize = if i + 1 < n {
            let c2 = expression.get_char(i + 1);
            proof {
                assert(rest[1] == c2);
            }
            let pair = (c == '&' && c2 == '&') || (c == '|' && c2 == '|') || (c == '=' && c2
                == '=') || (c == '>' && c2 == '=') || (c == '<' && c2 == '=');
            if pair {
                2
            } else {
                0
            }
        } else {
            0
        };
        let one = c == '!' || c == '>' || c == '<' || c == '(' || c == ')';
        if two == 2 || one {
            let l: usize = if two == 2 {
                2
            } else {
                1
            };
            proof {
                assert(op_len(rest) == l);
            }
            let run_tok = trimmed_substring(expression, run_start, i);
            if run_tok.as_str().unicode_len() > 0 {
                proof {
                    assert(((out@ + seq![run_tok]).map_values(|t: String| t@)) =~= out@.map_values(
                        |t: String| t@,
                    ) + seq![run_tok@]);
                    assert(out@.map_values(|t: String| t@) + seq![run_tok@] =~= out@.map_values(
                        |t: String| t@,
                    ) + emit_run(run));
                }
                out.push(run_tok);
            } else {
                proof {
                    assert(emit_run(run) =~= Seq::<Seq<char>>::empty());
                    assert(out@.map_values(|t: String| t@) + emit_run(run) =~= out@.map_values(
                        |t: String| t@,
                    ));
                }
            }
            let op_tok = expression.substring_char(i, i + l).to_owned();
            proof {
                assert(op_tok@ =~= rest.take(l as int));
                assert(((out@ + seq![op_tok]).map_values(|t: String| t@)) =~= out@.map_values(
                    |t: String| t@,
                ) + seq![op_tok@]);
                assert(rest.skip(l as int) =~= expression@.skip(i + l));
                assert(expression@.subrange((i + l) as int, (i + l) as int)
                    =~= Seq::<char>::empty());
                assert((out@.map_values(|t: String| t@) + emit_run(run)) + (seq![rest.take(
                    l as int,
                )] + scan(rest.skip(l as int), Seq::empty())) =~= ((out@.map_values(
                    |t: String| t@,
                ) + emit_run(run)) + seq![rest.take(l as int)]) + scan(
                    rest.skip(l as int),
                    Seq::empty(),
                ));
            }
            out.push(op_tok);
            i = i + l;
            run_start = i;
        } else {
            proof {
                assert(op_len(rest) == 0);
                assert(rest.skip(1) =~= expression@.skip(i + 1));
                assert(run.push(c) =~= expression@.subrange(run_start as int, i + 1));
            }
            i = i + 1;
        }
    }
    let ghost run = expression@.subrange(run_start as int, n as int);
    proof {
        assert(expression@.skip(n as int).len() == 0);
    }
    let run_tok = trimmed_substring(expression, run_start, n);
    if run_tok.as_str().unicode_len() > 0 {
        proof {
            assert(((out@ + seq![run_tok]).map_values(|t: String| t@)) =~= out@.map_values(
                |t: String| t@,
            ) + seq![run_tok@]);
            assert(out@.map_values(|t: String| t@) + seq![run_tok@] =~= out@.map_values(
                |t: String| t@,
            ) + emit_run(run));
        }
        out.push(run_tok);
    } else {
        proof {
            assert(emit_run(run) =~= Seq::<Seq<char>>::empty());
            assert(out@.map_values(|t: String| t@) + emit_run(run) =~= out@.map_values(
                |t: String| t@,
            ));
        }
    }
    out
}

/// Decimal digit characters.
pub open spec fn is_digit(c: char) -> bool {
    48 <= (c as nat) && (c as nat) <= 57
}

/// The numeric value of a digit character.
pub open spec fn digit_val(c: char) -> nat {
    ((c as nat) - 48) as nat
}

/// Whether every character of `s` is a decimal digit.
pub open spec fn all_digits(s: Seq<char>) -> bool {
    forall|i: int| 0 <= i < s.len() ==> is_digit(#[trigger] s[i])
}

/// The number written by a digit string, most significant digit first.
pub open spec fn digits_val(s: Seq<char>) -> nat
    decreases s.len(),
{
    if s.len() == 0 {
        0
    } else {
        digits_val(s.drop_last()) * 10 + digit_val(s.last())
    }
}

/// Whether a token is parseable as a numeric literal of the value model:
/// an optionally `-`-signed run of decimal digits with no leading zero,
/// whose value a 64-bit signed number can hold. Fractional and exponent
/// forms are not whole numbers of this model and fall through to the path
/// rule.
pub open spec fn is_int_literal(t: Seq<char>) -> bool {
    let digits = if t.len() > 0 && t[0] == '-' {
        t.skip(1)
    } else {
        t
    };
    &&& digits.len() > 0
    &&& all_digits(digits)
    &&& (digits[0] != '0' || digits.len() == 1)
    &&& if t.len() > 0 && t[0] == '-' {
        digits_val(digits) <= i64::MAX + 1
    } else {
        digits_val(digits) <= i64::MAX
    }
}

/// The number a numeric literal writes.
pub open spec fn int_literal_val(t: Seq<char>) -> int {
    if t.len() > 0 && t[0] == '-' {
        -(digits_val(t.skip(1)) as int)
    } else {
        digits_val(t) as int
    }
}

/// The quote characters stripped from string literals.
pub open spec fn is_quote(c: char) -> bool {
    c == '\'' || c == '"' || c == '`'
}

pub open spec fn trim_quotes_front(s: Seq<char>) -> Seq<char>
    decreases s.len(),
{
    if s.len() > 0 && is_quote(s[0]) {
        trim_quotes_front(s.skip(1))
    } else {
        s
    }
}

pub open spec fn trim_quotes_back(s: Seq<char>) -> Seq<char>
    decreases s.len(),
{
    if s.len() > 0 && is_quote(s.last()) {
        trim_quotes_back(s.drop_last())
    } else {
        s
    }
}

/// A string literal with every leading and trailing quote removed.
pub open spec fn trim_quotes(s: Seq<char>) -> Seq<char> {
    trim_quotes_back(trim_quotes_front(s))
}

/// The value of an operand token, in priority order: a token parseable as
/// a numeric literal becomes a number; a quote-delimited token becomes a
/// string with its quotes stripped; `true` and `false` become booleans;
/// everything else is a path resolved against the state, with null
/// standing for a failed resolution.
pub open spec fn operand_val(t: Seq<char>, state: Val) -> Val {
    if is_int_literal(t) {
        Val::Num(int_literal_val(t))
    } else if t.len() > 0 && is_quote(t[0]) {
        Val::Str(trim_quotes(t))
    } else if t == seq!['t', 'r', 'u', 'e'] {
        Val::Bool(true)
    } else if t == seq!['f', 'a', 'l', 's', 'e'] {
        Val::Bool(false)
    } else {
        match spec_resolve(t, state) {
            Some(v) => v,
            None => Val::Null,
        }
    }
}

/// Truthiness of a maybe-missing value: a missing one is falsy.
pub open spec fn opt_truthy(v: Option<Val>) -> bool {
    v matches Some(x) && spec_truthy(x)
}

/// What `==` accepts: the same JSON kind with equal content; null compares
/// unequal even to itself, as do mismatched kinds.
pub open spec fn val_equal(l: Val, r: Val) -> bool {
    l == r && !(l is Null)
}

/// One operator applied to the value so far (on the left, possibly missing)
/// and the operand just read. Comparisons are defined on numbers alone, the
/// connectives coerce both sides by truthiness, and `!` negates the right
/// operand alone.
pub open spec fn apply_op(op: Seq<char>, left: Option<Val>, right: Val) -> Val {
    if op == seq!['=', '='] {
        Val::Bool(left matches Some(l) && val_equal(l, right))
    } else if op == seq!['>'] {
        Val::Bool(left matches Some(Val::Num(a)) && right matches Val::Num(b) && a > b)
    } else if op == seq!['<'] {
        Val::Bool(left matches Some(Val::Num(a)) && right matches Val::Num(b) && a < b)
    } else if op == seq!['>', '='] {
        Val::Bool(left matches Some(Val::Num(a)) && right matches Val::Num(b) && a >= b)
    } else if op == seq!['<', '='] {
        Val::Bool(left matches Some(Val::Num(a)) && right matches Val::Num(b) && a <= b)
    } else if op == seq!['&', '&'] {
        Val::Bool(opt_truthy(left) && spec_truthy(right))
    } else if op == seq!['|', '|'] {
        Val::Bool(opt_truthy(left) || spec_truthy(right))
    } else if op == seq!['!'] {
        Val::Bool(!spec_truthy(right))
    } else {
        Val::Bool(false)
    }
}

/// The token walk from position `i`: `cur` is the value so far, `op` the
/// pending binary operator, `neg` a pending negation, and `stack` holds
/// the contexts saved by parentheses still open. `!` negates the operand
/// or parenthesized group immediately following it (two negations cancel),
/// and a pending binary operator then consumes that negated value as its
/// right operand. A binary operator with no operand before the next
/// operator, and one still pending at the end, folds against null — the
/// same null that stands for a failed resolution.
pub open spec fn eval_from(
    toks: Seq<Seq<char>>,
    state: Val,
    i: int,
    stack: Seq<(Option<Val>, Option<Seq<char>>, bool)>,
    cur: Option<Val>,
    op: Option<Seq<char>>,
    neg: bool,
) -> Option<Val>
    decreases toks.len() - i,
{
    if i < 0 || i >= toks.len() {
        if neg {
            let v = Val::Bool(!spec_truthy(Val::Null));
            match op {
                Some(o) => Some(apply_op(o, cur, v)),
                None => Some(v),
            }
        } else {
            match op {
                Some(o) => Some(apply_op(o, cur, Val::Null)),
                None => cur,
            }
        }
    } else {
        let t = toks[i];
        if t == seq!['('] {
            eval_from(toks, state, i + 1, stack.push((cur, op, neg)), None, None, false)
        } else if t == seq![')'] {
            let part = match cur {
                Some(v) => v,
                None => Val::Null,
            };
            if stack.len() > 0 {
                let frame = stack.last();
                let part2 = if frame.2 {
                    Val::Bool(!spec_truthy(part))
                } else {
                    part
                };
                let ncur = match frame.1 {
                    Some(o) => Some(apply_op(o, frame.0, part2)),
                    None => Some(part2),
                };
                eval_from(toks, state, i + 1, stack.drop_last(), ncur, None, false)
            } else {
                eval_from(toks, state, i + 1, stack, Some(part), None, false)
            }
        } else if t == seq!['!'] {
            eval_from(toks, state, i + 1, stack, cur, op, !neg)
        } else if is_op_token(t) {
            if neg {
                let v = Val::Bool(!spec_truthy(Val::Null));
                let ncur = match op {
                    Some(o) => Some(apply_op(o, cur, v)),
                    None => Some(v),
                };
                eval_from(toks, state, i + 1, stack, ncur, Some(t), false)
            } else {
                match op {
                    Some(o) => eval_from(
                        toks,
                        state,
                        i + 1,
                        stack,
                        Some(apply_op(o, cur, Val::Null)),
                        Some(t),
                        false,
                    ),
                    None => eval_from(toks, state, i + 1, stack, cur, Some(t), false),
                }
            }
        } else {
            let v0 = operand_val(t, state);
            let v = if neg {
                Val::Bool(!spec_truthy(v0))
            } else {
                v0
            };
            let ncur = match op {
                Some(o) => apply_op(o, cur, v),
                None => v,
            };
            eval_from(toks, state, i + 1, stack, Some(ncur), None, false)
        }
    }
}

/// The boolean a token sequence evaluates to: boolean true exactly, and
/// anything else, null and missing values included, is false.
pub open spec fn eval_tokens(toks: Seq<Seq<char>>, state: Val) -> bool {
    match eval_from(toks, state, 0, seq![], None, None, false) {
        Some(Val::Bool(b)) => b,
        _ => false,
    }
}

/// What evaluating an expression string against a state tree yields.
pub open spec fn spec_evaluate(expr: Seq<char>, state: Val) -> bool {
    eval_tokens(tokenize(expr), state)
}

/// The largest value a decimal accumulator may hold before one more digit
/// could pass the signed 64-bit bound.
const DEC_LIMIT: u64 = 922337203685477580;

proof fn lemma_digits_val_step(s: Seq<char>, j: int)
    requires
        0 <= j < s.len(),
    ensures
        digits_val(s.take(j + 1)) == digits_val(s.take(j)) * 10 + digit_val(s[j]),
        digits_val(s.take(j)) <= digits_val(s.take(j + 1)),
{
    assert(s.take(j + 1).drop_last() =~= s.take(j));
    assert(s.take(j + 1).last() == s[j]);
}

/// A prefix of a digit string never writes a larger number than the whole.
proof fn lemma_digits_val_prefix(s: Seq<char>, k: int)
    requires
        0 <= k <= s.len(),
    ensures
        digits_val(s.take(k)) <= digits_val(s),
    decreases s.len() - k,
{
    if k < s.len() {
        lemma_digits_val_step(s, k);
        lemma_digits_val_prefix(s, k + 1);
    } else {
        assert(s.take(k) =~= s);
    }
}

/// Parses a token as a numeric literal: an optionally `-`-signed digit run
/// with no leading zero, in the 64-bit signed range. Anything else is no
/// literal and resolves as a path instead.
#[verifier::loop_isolation(false)]
fn try_parse_int(t: &str) -> (r: Option<i64>)
    ensures
        match r {
            Some(v) => is_int_literal(t@) && v as int == int_literal_val(t@),
            None => !is_int_literal(t@),
        },
{
    let n = t.unicode_len();
    if n == 0 {
        return None;
    }
    let negative = t.get_char(0) == '-';
    let start: usize = if negative {
        1
    } else {
        0
    };
    let ghost digits = if negative {
        t@.skip(1)
    } else {
        t@
    };
    proof {
        assert(digits.len() == n - start);
        assert(forall|j: int| 0 <= j < digits.len() ==> #[trigger] digits[j] == t@[j + start]);
    }
    if start >= n {
        return None;
    }
    let d0 = t.get_char(start);
    let cap: u64 = if negative {
        8
    } else {
        7
    };
    let mut acc: u64 = 0;
    let mut i: usize = start;
    proof {
        assert(digits.take(0) =~= Seq::<char>::empty());
    }
    while i < n
        invariant
            start <= i <= n,
            n == t@.len(),
            forall|j: int| 0 <= j < i - start ==> is_digit(#[trigger] digits[j]),
            acc as nat == digits_val(digits.take(i - start)),
            acc <= 9223372036854775808,
            !negative ==> acc <= 9223372036854775807,
        decreases n - i,
    {
        let c = t.get_char(i);
        proof {
            assert(digits[i - start] == c);
        }
        let cu = c as u32;
        if cu < 48 || cu > 57 {
            proof {
                assert(!is_digit(digits[i - start]));
                assert(!all_digits(digits));
            }
            return None;
        }
        let d: u64 = (cu - 48) as u64;
        proof {
            lemma_digits_val_step(digits, i - start);
            assert(digit_val(digits[i - start]) == d);
        }
        if acc > DEC_LIMIT || (acc == DEC_LIMIT && d > cap) {
            proof {
                lemma_digits_val_prefix(digits, i - start + 1);
                if negative {
                    assert(digits_val(digits) > i64::MAX + 1);
                } else {
                    assert(digits_val(digits) > i64::MAX);
                }
            }
            return None;
        }
        acc = acc * 10 + d;
        i = i + 1;
    }
    proof {
        assert(digits.take(n - start) =~= digits);
        assert(all_digits(digits));
    }
    if d0 == '0' && n - start > 1 {
        proof {
            assert(digits[0] == '0' && digits.len() > 1);
        }
        return None;
    }
    proof {
        assert(is_int_literal(t@));
    }
    if negative {
        if acc == 9223372036854775808 {
            return Some(i64::MIN);
        }
        return Some(-(acc as i64));
    }
    Some(acc as i64)
}

fn is_quote_char(c: char) -> (r: bool)
    ensures
        r == is_quote(c),
{
    c == '\'' || c == '"' || c == '`'
}

/// The copy of `t` with every leading and trailing quote removed.
#[verifier::loop_isolation(false)]
fn strip_quotes(t: &str) -> (r: String)
    ensures
        r@ == trim_quotes(t@),
{
    let n = t.unicode_len();
    let mut a: usize = 0;
    proof {
        assert(t@.subrange(0, n as int) =~= t@);
    }
    while a < n && is_quote_char(t.get_char(a))
        invariant
            0 <= a <= n,
            n == t@.len(),
            trim_quotes_front(t@) == trim_quotes_front(t@.subrange(a as int, n as int)),
        decreases n - a,
    {
        proof {
            assert(t@.subrange(a as int, n as int)[0] == t@[a as int]);
            assert(t@.subrange(a as int, n as int).skip(1) =~= t@.subrange(a + 1, n as int));
        }
        a = a + 1;
    }
    proof {
        assert(trim_quotes_front(t@.subrange(a as int, n as int)) == t@.subrange(
            a as int,
            n as int,
        ));
    }
    let mut b = n;
    while b > a && is_quote_char(t.get_char(b - 1))
        invariant
            a <= b <= n,
            trim_quotes_back(t@.subrange(a as int, n as int)) == trim_quotes_back(
                t@.subrange(a as int, b as int),
            ),
        decreases b,
    {
        proof {
            assert(t@.subrange(a as int, b as int).last() == t@[b - 1]);
            assert(t@.subrange(a as int, b as int).drop_last() =~= t@.subrange(a as int, b - 1));
        }
        b = b - 1;
    }
    proof {
        assert(trim_quotes_back(t@.subrange(a as int, b as int)) == t@.subrange(a as int, b as int));
        assert(t@.subrange(0, n as int) =~= t@);
    }
    t.substring_char(a, b).to_owned()
}

/// The value of one operand token against the state tree.
fn operand_value(t: &str, state: &Value) -> (r: Value)
    requires
        val_wf(state@),
    ensures
        r@ == operand_val(t@, state@),
{
    match try_parse_int(t) {
        Some(v) => {
            return Value::Number(v);
        },
        None => {},
    }
    let n = t.unicode_len();
    if n > 0 {
        let c0 = t.get_char(0);
        if c0 == '\'' || c0 == '"' || c0 == '`' {
            return Value::String(strip_quotes(t));
        }
        if n == 4 && c0 == 't' && t.get_char(1) == 'r' && t.get_char(2) == 'u' && t.get_char(3)
            == 'e' {
            proof {
                assert(t@ =~= seq!['t', 'r', 'u', 'e']);
            }
            return Value::Bool(true);
        }
        if n == 5 && c0 == 'f' && t.get_char(1) == 'a' && t.get_char(2) == 'l' && t.get_char(3)
            == 's' && t.get_char(4) == 'e' {
            proof {
                assert(t@ =~= seq!['f', 'a', 'l', 's', 'e']);
            }
            return Value::Bool(false);
        }
        proof {
            assert(t@ != seq!['t', 'r', 'u', 'e']);
            assert(t@ != seq!['f', 'a', 'l', 's', 'e']);
        }
    }
    match find_value_by_dotted_path(t, state) {
        Some(v) => v,
        None => Value::Null,
    }
}

/// The model of a maybe-value.
pub open spec fn opt_val_model(v: Option<Value>) -> Option<Val> {
    match v {
        Some(x) => Some(val_model(x)),
        None => None,
    }
}

/// The model of a maybe-token.
pub open spec fn opt_str_model(o: Option<String>) -> Option<Seq<char>> {
    match o {
        Some(x) => Some(x@),
        None => None,
    }
}

/// The model of one saved evaluation context.
pub open spec fn frame_model(f: (Option<Value>, Option<String>, bool)) -> (
    Option<Val>,
    Option<Seq<char>>,
    bool,
) {
    (opt_val_model(f.0), opt_str_model(f.1), f.2)
}

/// Whether a token string is one operator lexeme.
fn is_operator_token(t: &str) -> (r: bool)
    ensures
        r == is_op_token(t@),
{
    let n = t.unicode_len();
    if n == 1 {
        let c = t.get_char(0);
        c == '!' || c == '>' || c == '<' || c == '(' || c == ')'
    } else if n == 2 {
        let a = t.get_char(0);
        let b = t.get_char(1);
        (a == '&' && b == '&') || (a == '|' && b == '|') || (a == '=' && b == '=') || (a == '>'
            && b == '=') || (a == '<' && b == '=')
    } else {
        false
    }
}

/// Applies a pending operator to the value so far and the operand just
/// read. A missing operator yields boolean false, as does any operator the
/// language does not know.
pub fn evaluate_expression(value: Option<Value>, operator: Option<String>, part_value: Value) -> (r:
    Value)
    ensures
        r@ == match operator {
            Some(o) => apply_op(o@, opt_val_model(value), part_value@),
            None => Val::Bool(false),
        },
{
    let op = match operator {
        Some(o) => o,
        None => {
            return Value::Bool(false);
        },
    };
    let os = op.as_str();
    let n = os.unicode_len();
    if n == 2 {
        let a = os.get_char(0);
        let b = os.get_char(1);
        if a == '=' && b == '=' {
            proof {
                assert(op@ =~= seq!['=', '=']);
            }
            let e = match &value {
                Some(l) => match l {
                    Value::Null => false,
                    _ => value_eq(l, &part_value),
                },
                None => false,
            };
            return Value::Bool(e);
        }
        if a == '>' && b == '=' {
            proof {
                assert(op@ =~= seq!['>', '=']);
            }
            let e = match (&value, &part_value) {
                (Some(Value::Number(x)), Value::Number(y)) => *x >= *y,
                _ => false,
            };
            return Value::Bool(e);
        }
        if a == '<' && b == '=' {
            proof {
                assert(op@ =~= seq!['<', '=']);
            }
            let e = match (&value, &part_value) {
                (Some(Value::Number(x)), Value::Number(y)) => *x <= *y,
                _ => false,
            };
            return Value::Bool(e);
        }
        if a == '&' && b == '&' {
            proof {
                assert(op@ =~= seq!['&', '&']);
            }
            let lt = match &value {
                Some(l) => l.truthy(),
                None => false,
            };
            let rt = part_value.truthy();
            return Value::Bool(lt && rt);
        }
        if a == '|' && b == '|' {
            proof {
                assert(op@ =~= seq!['|', '|']);
            }
            let lt = match &value {
                Some(l) => l.truthy(),
                None => false,
            };
            let rt = part_value.truthy();
            return Value::Bool(lt || rt);
        }
        proof {
            assert(op@.len() == 2);
            assert(op@ != seq!['=', '=']);
            assert(op@ != seq!['>', '=']);
            assert(op@ != seq!['<', '=']);
            assert(op@ != seq!['&', '&']);
            assert(op@ != seq!['|', '|']);
            assert(op@ != seq!['>']);
            assert(op@ != seq!['<']);
            assert(op@ != seq!['!']);
        }
        return Value::Bool(false);
    }
    if n == 1 {
        let a = os.get_char(0);
        if a == '>' {
            proof {
                assert(op@ =~= seq!['>']);
            }
            let e = match (&value, &part_value) {
                (Some(Value::Number(x)), Value::Number(y)) => *x > *y,
                _ => false,
            };
            return Value::Bool(e);
        }
        if a == '<' {
            proof {
                assert(op@ =~= seq!['<']);
            }
            let e = match (&value, &part_value) {
                (Some(Value::Number(x)), Value::Number(y)) => *x < *y,
                _ => false,
            };
            return Value::Bool(e);
        }
        if a == '!' {
            proof {
                assert(op@ =~= seq!['!']);
            }
            return Value::Bool(!part_value.truthy());
        }
        proof {
            assert(op@.len() == 1);
            assert(op@ != seq!['>']);
            assert(op@ != seq!['<']);
            assert(op@ != seq!['!']);
            assert(op@ != seq!['=', '=']);
        }
        return Value::Bool(false);
    }
    proof {
        assert(op@.len() != 1 && op@.len() != 2);
    }
    Value::Bool(false)
}

/// Safely evaluates an expression against a state tree: tokenize, then fold
/// the tokens left to right. No input is an error; whatever does not
/// evaluate to boolean true is false.
#[verifier::loop_isolation(false)]
pub fn safe_evaluate_expression(expression: &str, state: &Value) -> (r: bool)
    requires
        val_wf(state@),
    ensures
        r == spec_evaluate(expression@, state@),
{
    let toks = parse_expression(expression);
    let ghost tm = toks@.map_values(|t: String| t@);
    let mut stack: Vec<(Option<Value>, Option<String>, bool)> = Vec::new();
    let mut cur: Option<Value> = None;
    let mut op: Option<String> = None;
    let mut neg: bool = false;
    let mut i: usize = 0;
    proof {
        assert(stack@.map_values(|f: (Option<Value>, Option<String>, bool)| frame_model(f))
            =~= Seq::<(Option<Val>, Option<Seq<char>>, bool)>::empty());
    }
    while i < toks.len()
        invariant
            0 <= i <= toks.len(),
            tm == toks@.map_values(|t: String| t@),
            tm.len() == toks@.len(),
            eval_from(
                tm,
                state@,
                i as int,
                stack@.map_values(|f: (Option<Value>, Option<String>, bool)| frame_model(f)),
                opt_val_model(cur),
                opt_str_model(op),
                neg,
            ) == eval_from(
                tm,
                state@,
                0,
                Seq::<(Option<Val>, Option<Seq<char>>, bool)>::empty(),
                None,
                None,
                false,
            ),
        decreases toks.len() - i,
    {
        let ghost frames = stack@.map_values(
            |f: (Option<Value>, Option<String>, bool)| frame_model(f),
        );
        let t = &toks[i];
        proof {
            assert(tm[i as int] == toks@[i as int]@);
        }
        let ts = t.as_str();
        let n = ts.unicode_len();
        let open_paren = n == 1 && ts.get_char(0) == '(';
        let close_paren = n == 1 && ts.get_char(0) == ')';
        let bang = n == 1 && ts.get_char(0) == '!';
        if open_paren {
            proof {
                assert(t@ =~= seq!['(']);
            }
            let frame = (cur, op, neg);
            proof {
                assert((stack@.push(frame)).map_values(
                    |f: (Option<Value>, Option<String>, bool)| frame_model(f),
                ) =~= frames.push(frame_model(frame)));
            }
            stack.push(frame);
            cur = None;
            op = None;
            neg = false;
        } else if close_paren {
            proof {
                assert(t@ =~= seq![')']);
                assert(t@ != seq!['(']);
            }
            let part = match cur {
                Some(v) => v,
                None => Value::Null,
            };
            cur = None;
            match stack.pop() {
                Some(frame) => {
                    proof {
                        assert(frames.last() == frame_model(frame));
                        assert(stack@.map_values(
                            |f: (Option<Value>, Option<String>, bool)| frame_model(f),
                        ) =~= frames.drop_last());
                    }
                    let (pcur, pop, pneg) = frame;
                    let part2 = if pneg {
                        Value::Bool(!part.truthy())
                    } else {
                        part
                    };
                    match pop {
                        Some(o) => {
                            cur = Some(evaluate_expression(pcur, Some(o), part2));
                        },
                        None => {
                            cur = Some(part2);
                        },
                    }
                },
                None => {
                    cur = Some(part);
                },
            }
            op = None;
            neg = false;
        } else if bang {
            proof {
                assert(t@ =~= seq!['!']);
                assert(t@ != seq!['(']);
                assert(t@ != seq![')']);
            }
            neg = !neg;
        } else if is_operator_token(ts) {
            proof {
                assert(t@ != seq!['(']);
                assert(t@ != seq![')']);
                assert(t@ != seq!['!']);
            }
            if neg {
                let negated = Value::Bool(true);
                proof {
                    assert(negated@ == Val::Bool(!spec_truthy(Val::Null)));
                }
                match op {
                    Some(o) => {
                        cur = Some(evaluate_expression(cur, Some(o), negated));
                    },
                    None => {
                        cur = Some(negated);
                    },
                }
                neg = false;
            } else {
                match op {
                    Some(o) => {
                        cur = Some(evaluate_expression(cur, Some(o), Value::Null));
                    },
                    None => {},
                }
            }
            op = Some(t.clone());
        } else {
            proof {
                assert(t@ != seq!['(']);
                assert(t@ != seq![')']);
                assert(t@ != seq!['!']);
            }
            let v0 = operand_value(ts, state);
            let v = if neg {
                Value::Bool(!v0.truthy())
            } else {
                v0
            };
            match op {
                Some(o) => {
                    cur = Some(evaluate_expression(cur, Some(o), v));
                },
                None => {
                    cur = Some(v);
                },
            }
            op = None;
            neg = false;
        }
        i = i + 1;
    }
    if neg {
        let negated = Value::Bool(true);
        proof {
            assert(negated@ == Val::Bool(!spec_truthy(Val::Null)));
        }
        match op {
            Some(o) => {
                cur = Some(evaluate_expression(cur, Some(o), negated));
            },
            None => {
                cur = Some(negated);
            },
        }
    } else {
        match op {
            Some(o) => {
                cur = Some(evaluate_expression(cur, Some(o), Value::Null));
            },
            None => {},
        }
    }
    match cur {
        Some(Value::Bool(b)) => b,
        _ => false,
    }
}

/// An operator/operand token pair written after a first operand, as the
/// token list `first op1 a1 op2 a2 ...`.
pub open spec fn chain_rest(pairs: Seq<(Seq<char>, Seq<char>)>) -> Seq<Seq<char>>
    decreases pairs.len(),
{
    if pairs.len() == 0 {
        seq![]
    } else {
        seq![pairs[0].0, pairs[0].1] + chain_rest(pairs.skip(1))
    }
}

/// Folding the pairs onto a start value strictly left to right.
pub open spec fn fold_tokens(v: Val, pairs: Seq<(Seq<char>, Seq<char>)>, state: Val) -> Val
    decreases pairs.len(),
{
    if pairs.len() == 0 {
        v
    } else {
        fold_tokens(
            apply_op(pairs[0].0, Some(v), operand_val(pairs[0].1, state)),
            pairs.skip(1),
            state,
        )
    }
}

/// Every pair is a binary (non-grouping, non-negating) operator followed
/// by an operand.
pub open spec fn chain_wf(pairs: Seq<(Seq<char>, Seq<char>)>) -> bool {
    forall|i: int|
        0 <= i < pairs.len() ==> is_op_token(#[trigger] pairs[i].0) && pairs[i].0 != seq!['(']
            && pairs[i].0 != seq![')'] && pairs[i].0 != seq!['!'] && !is_op_token(pairs[i].1)
}

proof fn lemma_eval_chain(
    toks: Seq<Seq<char>>,
    state: Val,
    i: int,
    stack: Seq<(Option<Val>, Option<Seq<char>>, bool)>,
    v: Val,
    pairs: Seq<(Seq<char>, Seq<char>)>,
)
    requires
        0 <= i <= toks.len(),
        toks.subrange(i, toks.len() as int) == chain_rest(pairs),
        chain_wf(pairs),
    ensures
        eval_from(toks, state, i, stack, Some(v), None, false) == Some(
            fold_tokens(v, pairs, state),
        ),
    decreases pairs.len(),
{
    assert(chain_rest(pairs).len() == 2 * pairs.len()) by {
        lemma_chain_rest_len(pairs);
    }
    if pairs.len() == 0 {
        assert(toks.subrange(i, toks.len() as int).len() == 0);
    } else {
        let op = pairs[0].0;
        let a = pairs[0].1;
        assert(toks[i] == toks.subrange(i, toks.len() as int)[0]);
        assert(toks[i] == op);
        assert(toks[i + 1] == toks.subrange(i, toks.len() as int)[1]);
        assert(toks[i + 1] == a);
        assert(is_op_token(op) && op != seq!['('] && op != seq![')'] && op != seq!['!']);
        assert(eval_from(toks, state, i, stack, Some(v), None, false) == eval_from(
            toks,
            state,
            i + 1,
            stack,
            Some(v),
            Some(op),
            false,
        ));
        assert(!is_op_token(a) && a != seq!['('] && a != seq![')'] && a != seq!['!']);
        let v2 = apply_op(op, Some(v), operand_val(a, state));
        assert(eval_from(toks, state, i + 1, stack, Some(v), Some(op), false) == eval_from(
            toks,
            state,
            i + 2,
            stack,
            Some(v2),
            None,
            false,
        ));
        assert(toks.subrange(i + 2, toks.len() as int) =~= chain_rest(pairs).skip(2));
        assert(chain_rest(pairs).skip(2) =~= chain_rest(pairs.skip(1)));
        lemma_eval_chain(toks, state, i + 2, stack, v2, pairs.skip(1));
    }
}

proof fn lemma_chain_rest_len(pairs: Seq<(Seq<char>, Seq<char>)>)
    ensures
        chain_rest(pairs).len() == 2 * pairs.len(),
    decreases pairs.len(),
{
    if pairs.len() > 0 {
        lemma_chain_rest_len(pairs.skip(1));
    }
}

/// Evaluation of a parenthesis-free operator chain folds strictly left to
/// right: there is no precedence, the textual order alone decides. The
/// token list `first op1 a1 ... opn an` evaluates to the fold of the pairs
/// onto the first operand, one operator at a time.
pub proof fn lemma_eval_left_to_right(
    first: Seq<char>,
    pairs: Seq<(Seq<char>, Seq<char>)>,
    state: Val,
)
    requires
        !is_op_token(first),
        chain_wf(pairs),
    ensures
        eval_from(
            seq![first] + chain_rest(pairs),
            state,
            0,
            Seq::empty(),
            None,
            None,
            false,
        ) == Some(fold_tokens(operand_val(first, state), pairs, state)),
{
    let toks = seq![first] + chain_rest(pairs);
    assert(toks[0] == first);
    assert(first != seq!['('] && first != seq![')'] && first != seq!['!']);
    let v0 = operand_val(first, state);
    assert(eval_from(toks, state, 0, Seq::empty(), None, None, false) == eval_from(
        toks,
        state,
        1,
        Seq::empty(),
        Some(v0),
        None,
        false,
    ));
    assert(toks.subrange(1, toks.len() as int) =~= chain_rest(pairs));
    lemma_eval_chain(toks, state, 1, Seq::empty(), v0, pairs);
}

/// The characters operator lexemes are made of.
pub open spec fn op_alpha(c: char) -> bool {
    c == '&' || c == '|' || c == '=' || c == '<' || c == '>' || c == '!' || c == '(' || c == ')'
}

/// An operand token that reassembly cannot disturb: non-blank, already
/// trimmed, and free of operator characters.
pub open spec fn operand_wf(t: Seq<char>) -> bool {
    &&& t.len() > 0
    &&& !is_space(t[0])
    &&& !is_space(t.last())
    &&& forall|i: int| 0 <= i < t.len() ==> !op_alpha(#[trigger] t[i])
}

/// A token list that reassembly preserves: every token an operator lexeme
/// or a clean operand, no two operands adjacent, and no one-character
/// operator that the first character of the next token would extend to a
/// two-character lexeme.
pub open spec fn tokens_wf(ts: Seq<Seq<char>>) -> bool {
    &&& forall|i: int| 0 <= i < ts.len() ==> is_op_token(#[trigger] ts[i]) || operand_wf(ts[i])
    &&& forall|i: int|
        0 <= i && i + 1 < ts.len() ==> is_op_token(#[trigger] ts[i]) || is_op_token(ts[i + 1])
    &&& forall|i: int|
        0 <= i && i + 1 < ts.len() && is_op_token(#[trigger] ts[i]) && ts[i].len() == 1
            && is_op_token(ts[i + 1]) ==> !is_two_char_op(ts[i][0], ts[i + 1][0])
}

/// The tokens written back out with no separator.
pub open spec fn join_tokens(ts: Seq<Seq<char>>) -> Seq<char>
    decreases ts.len(),
{
    if ts.len() == 0 {
        Seq::empty()
    } else {
        ts[0] + join_tokens(ts.skip(1))
    }
}

proof fn lemma_trim_of_trimmed(a: Seq<char>)
    requires
        a.len() > 0,
        !is_space(a[0]),
        !is_space(a.last()),
    ensures
        trim(a) == a,
{
    assert(trim_front(a) == a);
    assert(trim_back(a) == a);
}

/// Scanning walks straight through operator-free text, growing the run.
proof fn lemma_scan_through_operand(a: Seq<char>, s2: Seq<char>, run: Seq<char>)
    requires
        forall|i: int| 0 <= i < a.len() ==> !op_alpha(#[trigger] a[i]),
    ensures
        scan(a + s2, run) == scan(s2, run + a),
    decreases a.len(),
{
    if a.len() == 0 {
        assert(a + s2 =~= s2);
        assert(run + a =~= run);
    } else {
        let s = a + s2;
        assert(s[0] == a[0]);
        assert(!op_alpha(a[0]));
        if s.len() >= 2 {
            assert(!is_two_char_op(s[0], s[1]));
        }
        assert(!is_one_char_op(s[0]));
        assert(op_len(s) == 0);
        assert(s.skip(1) =~= a.skip(1) + s2);
        assert(forall|i: int| 0 <= i < a.skip(1).len() ==> !op_alpha(#[trigger] a.skip(1)[i]));
        lemma_scan_through_operand(a.skip(1), s2, run.push(a[0]));
        assert(run.push(a[0]) + a.skip(1) =~= run + a);
    }
}

/// The reassembled text of a nonempty list starts with its first token.
proof fn lemma_join_head(ts: Seq<Seq<char>>)
    requires
        ts.len() > 0,
    ensures
        join_tokens(ts) == ts[0] + join_tokens(ts.skip(1)),
        join_tokens(ts).len() >= ts[0].len(),
        forall|k: int| 0 <= k < ts[0].len() ==> join_tokens(ts)[k] == ts[0][k],
        join_tokens(ts).take(ts[0].len() as int) == ts[0],
        join_tokens(ts).skip(ts[0].len() as int) == join_tokens(ts.skip(1)),
{
    assert(join_tokens(ts).take(ts[0].len() as int) =~= ts[0]);
    assert(join_tokens(ts).skip(ts[0].len() as int) =~= join_tokens(ts.skip(1)));
}

/// At the front of the reassembled text of a well-formed list whose head is
/// an operator, the scanner recognizes exactly that operator.
proof fn lemma_oplen_at_op_head(ts: Seq<Seq<char>>)
    requires
        tokens_wf(ts),
        ts.len() > 0,
        is_op_token(ts[0]),
    ensures
        op_len(join_tokens(ts)) == ts[0].len(),
{
    let u = ts[0];
    let j = join_tokens(ts);
    lemma_join_head(ts);
    if u.len() == 2 {
        assert(is_two_char_op(j[0], j[1]));
    } else {
        assert(is_one_char_op(j[0]));
        if j.len() >= 2 {
            if ts.len() == 1 {
                assert(join_tokens(ts.skip(1)).len() == 0);
                assert(j.len() == 1);
            } else {
                let v = ts[1];
                assert(is_op_token(v) || operand_wf(v));
                assert(v.len() > 0);
                lemma_join_head(ts.skip(1));
                assert(ts.skip(1)[0] == v);
                assert(j[1] == join_tokens(ts.skip(1))[0]);
                assert(j[1] == v[0]);
                if is_op_token(v) {
                    assert(!is_two_char_op(u[0], v[0]));
                } else {
                    assert(!op_alpha(v[0]));
                    assert(!is_two_char_op(u[0], v[0]));
                }
            }
        }
    }
}

/// Scanning the reassembled text of a well-formed token list gives the list
/// back.
proof fn lemma_retokenize_list(ts: Seq<Seq<char>>)
    requires
        tokens_wf(ts),
    ensures
        scan(join_tokens(ts), Seq::empty()) == ts,
    decreases ts.len(),
{
    if ts.len() == 0 {
        assert(join_tokens(ts).len() == 0);
        assert(trim(Seq::<char>::empty()) == Seq::<char>::empty());
        assert(scan(join_tokens(ts), Seq::empty()) =~= ts);
    } else if is_op_token(ts[0]) {
        let u = ts[0];
        let j = join_tokens(ts);
        lemma_join_head(ts);
        lemma_oplen_at_op_head(ts);
        assert(j.len() > 0);
        assert(trim(Seq::<char>::empty()) == Seq::<char>::empty());
        assert(emit_run(Seq::empty()) =~= Seq::<Seq<char>>::empty());
        assert(forall|i: int|
            0 <= i < ts.skip(1).len() ==> is_op_token(#[trigger] ts.skip(1)[i]) || operand_wf(
                ts.skip(1)[i],
            ));
        assert(forall|i: int|
            0 <= i && i + 1 < ts.skip(1).len() ==> is_op_token(#[trigger] ts.skip(1)[i])
                || is_op_token(ts.skip(1)[i + 1]));
        assert(forall|i: int|
            0 <= i && i + 1 < ts.skip(1).len() && is_op_token(#[trigger] ts.skip(1)[i])
                && ts.skip(1)[i].len() == 1 && is_op_token(ts.skip(1)[i + 1])
                ==> !is_two_char_op(ts.skip(1)[i][0], ts.skip(1)[i + 1][0]));
        lemma_retokenize_list(ts.skip(1));
        assert(scan(j, Seq::empty()) =~= Seq::<Seq<char>>::empty() + seq![j.take(u.len() as int)]
            + scan(j.skip(u.len() as int), Seq::empty()));
        assert(scan(j, Seq::empty()) =~= seq![u] + ts.skip(1));
        assert(seq![u] + ts.skip(1) =~= ts);
    } else {
        let a = ts[0];
        assert(operand_wf(a));
        let j = join_tokens(ts);
        lemma_join_head(ts);
        let jr = join_tokens(ts.skip(1));
        lemma_scan_through_operand(a, jr, Seq::empty());
        assert(Seq::<char>::empty() + a =~= a);
        lemma_trim_of_trimmed(a);
        if ts.len() == 1 {
            assert(ts.skip(1).len() == 0);
            assert(jr.len() == 0);
            assert(scan(jr, a) =~= emit_run(a));
            assert(emit_run(a) =~= seq![a]);
            assert(seq![a] =~= ts);
        } else {
            let u = ts[1];
            assert(is_op_token(ts[0]) || is_op_token(ts[1]));
            assert(is_op_token(u));
            assert(forall|i: int|
                0 <= i < ts.skip(1).len() ==> is_op_token(#[trigger] ts.skip(1)[i]) || operand_wf(
                    ts.skip(1)[i],
                ));
            assert(forall|i: int|
                0 <= i && i + 1 < ts.skip(1).len() ==> is_op_token(#[trigger] ts.skip(1)[i])
                    || is_op_token(ts.skip(1)[i + 1]));
            assert(forall|i: int|
                0 <= i && i + 1 < ts.skip(1).len() && is_op_token(#[trigger] ts.skip(1)[i])
                    && ts.skip(1)[i].len() == 1 && is_op_token(ts.skip(1)[i + 1])
                    ==> !is_two_char_op(ts.skip(1)[i][0], ts.skip(1)[i + 1][0]));
            assert(ts.skip(1)[0] == u);
            lemma_join_head(ts.skip(1));
            lemma_oplen_at_op_head(ts.skip(1));
            assert(op_len(jr) == u.len());
            assert(jr.len() > 0);
            assert(scan(jr, a) =~= emit_run(a) + seq![jr.take(u.len() as int)] + scan(
                jr.skip(u.len() as int),
                Seq::empty(),
            ));
            assert(emit_run(a) =~= seq![a]);
            assert(jr.take(u.len() as int) == u);
            assert(jr.skip(u.len() as int) == join_tokens(ts.skip(1).skip(1)));
            assert(ts.skip(1).skip(1) =~= ts.skip(2));
            assert(forall|i: int|
                0 <= i < ts.skip(2).len() ==> is_op_token(#[trigger] ts.skip(2)[i]) || operand_wf(
                    ts.skip(2)[i],
                ));
            assert(forall|i: int|
                0 <= i && i + 1 < ts.skip(2).len() ==> is_op_token(#[trigger] ts.skip(2)[i])
                    || is_op_token(ts.skip(2)[i + 1]));
            assert(forall|i: int|
                0 <= i && i + 1 < ts.skip(2).len() && is_op_token(#[trigger] ts.skip(2)[i])
                    && ts.skip(2)[i].len() == 1 && is_op_token(ts.skip(2)[i + 1])
                    ==> !is_two_char_op(ts.skip(2)[i][0], ts.skip(2)[i + 1][0]));
            lemma_retokenize_list(ts.skip(2));
            assert(scan(jr, a) =~= seq![a] + seq![u] + ts.skip(2));
            assert(seq![a] + seq![u] + ts.skip(2) =~= ts);
        }
    }
}

/// Reassembling a well-formed token list and tokenizing again gives the
/// same tokens.
pub proof fn lemma_join_retokenize(ts: Seq<Seq<char>>)
    requires
        tokens_wf(ts),
    ensures
        tokenize(join_tokens(ts)) == ts,
{
    lemma_retokenize_list(ts);
}

/// An operand token free of the characters operators are made of.
pub open spec fn operand_clean(t: Seq<char>) -> bool {
    forall|j: int| 0 <= j < t.len() ==> !op_alpha(#[trigger] t[j])
}

/// Round trip: tokenizing an expression, reassembling the tokens with no
/// separator, and re-parsing gives the same tokens back, so evaluating the
/// reassembled expression agrees with evaluating the original string. Two
/// restrictions make it so: every operand token is free of operator
/// characters, and no one-character comparison is followed directly by a
/// lexeme its first character would extend (`>` or `<` before `==`).
pub proof fn lemma_round_trip_evaluate(e: Seq<char>, state: Val)
    requires
        forall|i: int|
            0 <= i < tokenize(e).len() ==> is_op_token(#[trigger] tokenize(e)[i]) || operand_clean(
                tokenize(e)[i],
            ),
        forall|i: int|
            0 <= i && i + 1 < tokenize(e).len() && is_op_token(#[trigger] tokenize(e)[i])
                && tokenize(e)[i].len() == 1 && is_op_token(tokenize(e)[i + 1])
                ==> !is_two_char_op(tokenize(e)[i][0], tokenize(e)[i + 1][0]),
    ensures
        tokenize(join_tokens(tokenize(e))) == tokenize(e),
        spec_evaluate(join_tokens(tokenize(e)), state) == spec_evaluate(e, state),
{
    lemma_tokenize_shape(e);
    let ts = tokenize(e);
    assert forall|i: int| 0 <= i < ts.len() implies is_op_token(#[trigger] ts[i]) || operand_wf(
        ts[i],
    ) by {
        assert(shaped_token(ts[i]));
    }
    assert(tokens_wf(ts));
    lemma_retokenize_list(ts);
}

proof fn lemma_trim_front_head(y: Seq<char>)
    ensures
        trim_front(y).len() > 0 ==> !is_space(trim_front(y)[0]),
    decreases y.len(),
{
    if y.len() > 0 && is_space(y[0]) {
        lemma_trim_front_head(y.skip(1));
    }
}

proof fn lemma_trim_back_ends(z: Seq<char>)
    ensures
        trim_back(z).len() > 0 ==> !is_space(trim_back(z).last()),
        trim_back(z).len() > 0 ==> trim_back(z)[0] == z[0],
    decreases z.len(),
{
    if z.len() > 0 && is_space(z.last()) {
        lemma_trim_back_ends(z.drop_last());
    }
}

/// A non-blank trimmed token neither starts nor ends with whitespace.
proof fn lemma_trim_ends(x: Seq<char>)
    ensures
        trim(x).len() > 0 ==> !is_space(trim(x)[0]) && !is_space(trim(x).last()),
{
    lemma_trim_front_head(x);
    lemma_trim_back_ends(trim_front(x));
}

/// A token as the tokenizer shapes it: an operator lexeme, or a non-blank
/// operand without surrounding whitespace.
pub open spec fn shaped_token(t: Seq<char>) -> bool {
    is_op_token(t) || (t.len() > 0 && !is_space(t[0]) && !is_space(t.last()))
}

proof fn lemma_scan_shape(s: Seq<char>, run: Seq<char>)
    ensures
        forall|i: int| 0 <= i < scan(s, run).len() ==> shaped_token(#[trigger] scan(s, run)[i]),
        forall|i: int|
            0 <= i && i + 1 < scan(s, run).len() ==> is_op_token(#[trigger] scan(s, run)[i])
                || is_op_token(scan(s, run)[i + 1]),
    decreases s.len(),
{
    if s.len() == 0 {
        lemma_trim_ends(run);
        assert(scan(s, run) == emit_run(run));
        assert forall|i: int| 0 <= i < scan(s, run).len() implies shaped_token(
            #[trigger] scan(s, run)[i],
        ) by {
            assert(scan(s, run)[i] == trim(run));
        }
    } else {
        let l = op_len(s);
        if l > 0 {
            lemma_trim_ends(run);
            lemma_scan_shape(s.skip(l as int), Seq::empty());
            let op = s.take(l as int);
            assert(is_op_token(op));
            let r = scan(s, run);
            let pre = emit_run(run) + seq![op];
            assert(r =~= pre + scan(s.skip(l as int), Seq::empty()));
            assert(forall|i: int| 0 <= i < pre.len() ==> shaped_token(#[trigger] pre[i]));
            assert(is_op_token(pre.last()));
            assert forall|i: int| 0 <= i < r.len() implies shaped_token(#[trigger] r[i]) by {
                if i < pre.len() {
                    assert(r[i] == pre[i]);
                } else {
                    assert(r[i] == scan(s.skip(l as int), Seq::empty())[i - pre.len()]);
                }
            }
            assert forall|i: int|
                0 <= i && i + 1 < r.len() implies is_op_token(#[trigger] r[i]) || is_op_token(
                r[i + 1],
            ) by {
                if i + 1 < pre.len() {
                    assert(r[i + 1] == pre[i + 1]);
                    assert(is_op_token(r[i + 1]));
                } else if i + 1 == pre.len() {
                    assert(r[i] == pre[i]);
                } else {
                    assert(r[i] == scan(s.skip(l as int), Seq::empty())[i - pre.len()]);
                    assert(r[i + 1] == scan(s.skip(l as int), Seq::empty())[i + 1 - pre.len()]);
                }
            }
        } else {
            lemma_scan_shape(s.skip(1), run.push(s[0]));
            let r2 = scan(s.skip(1), run.push(s[0]));
            assert(scan(s, run) == r2);
            assert forall|i: int| 0 <= i < scan(s, run).len() implies shaped_token(
                #[trigger] scan(s, run)[i],
            ) by {
                assert(scan(s, run)[i] == r2[i]);
            }
            assert forall|i: int|
                0 <= i && i + 1 < scan(s, run).len() implies is_op_token(
                #[trigger] scan(s, run)[i],
            ) || is_op_token(scan(s, run)[i + 1]) by {
                assert(scan(s, run)[i] == r2[i]);
                assert(scan(s, run)[i + 1] == r2[i + 1]);
            }
        }
    }
}

/// What the tokenizer always guarantees of its output: every token is an
/// operator lexeme or a non-blank trimmed operand, and no two operands are
/// adjacent. For the reassembly round trip only two genuine restrictions
/// remain: operand tokens free of operator characters, and no
/// one-character comparison followed directly by a lexeme it would extend.
pub proof fn lemma_tokenize_shape(e: Seq<char>)
    ensures
        forall|i: int|
            0 <= i < tokenize(e).len() ==> shaped_token(#[trigger] tokenize(e)[i]),
        forall|i: int|
            0 <= i && i + 1 < tokenize(e).len() ==> is_op_token(#[trigger] tokenize(e)[i])
                || is_op_token(tokenize(e)[i + 1]),
{
    lemma_scan_shape(e, Seq::empty());
}

} // verus!
