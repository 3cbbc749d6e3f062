//! Constant substitution, expression validation and the stack evaluator.
//!
//! The flow is: raw text, constant substitution, tokenisation on spaces,
//! validation, then a single left-to-right stack pass.  The operator table
//! is the closed enumeration [`Operator`], so dispatch is exhaustive and
//! cannot fail on an unknown key at evaluation time.

use vstd::prelude::*;

use crate::decimal::spec_add;
use crate::decimal::spec_div;
use crate::decimal::spec_mul;
use crate::decimal::spec_sub;
use crate::decimal::Dec;
use crate::decimal::MathError;
use crate::power::power;
use crate::power::spec_pow;
use crate::text::join_spec;
use crate::text::join_tokens;
use crate::text::lemma_join_split;
use crate::text::lemma_split_join_inverse;
use crate::text::lemma_split_nonempty;
use crate::text::lemma_split_tokens_space_free;
use crate::text::parse_decimal;
use crate::text::parse_spec;
use crate::text::split_spec;
use crate::text::tokenize;

verus! {

/// The operator table: the five recognised binary operator symbols.
#[derive(Clone, Copy, Debug, PartialEq, Eq, Structural)]
pub enum Operator {
    /// `+`
    Plus,
    /// `-`
    Minus,
    /// `*`
    Times,
    /// `/`
    Divide,
    /// `^`
    Power,
}

/// The operator a token denotes, if any.
pub open spec fn operator_of(t: Seq<char>) -> Option<Operator> {
    if t.len() == 1 {
        if t[0] == '+' {
            Some(Operator::Plus)
        } else if t[0] == '-' {
            Some(Operator::Minus)
        } else if t[0] == '*' {
            Some(Operator::Times)
        } else if t[0] == '/' {
            Some(Operator::Divide)
        } else if t[0] == '^' {
            Some(Operator::Power)
        } else {
            None
        }
    } else {
        None
    }
}

/// Look a token up in the operator table.
pub fn operator_lookup(t: &str) -> (r: Option<Operator>)
    ensures
        r == operator_of(t@),
{
    if t.unicode_len() != 1 {
        return None;
    }
    let c = t.get_char(0);
    if c == '+' {
        Some(Operator::Plus)
    } else if c == '-' {
        Some(Operator::Minus)
    } else if c == '*' {
        Some(Operator::Times)
    } else if c == '/' {
        Some(Operator::Divide)
    } else if c == '^' {
        Some(Operator::Power)
    } else {
        None
    }
}

/// The binary function an operator denotes.
pub open spec fn spec_apply(op: Operator, a: Dec, b: Dec) -> Result<Dec, MathError> {
    match op {
        Operator::Plus => spec_add(a, b),
        Operator::Minus => spec_sub(a, b),
        Operator::Times => spec_mul(a, b),
        Operator::Divide => spec_div(a, b),
        Operator::Power => spec_pow(a, b),
    }
}

/// Apply an operator to `a` and `b`, in push order.
pub fn apply_operator(op: Operator, a: Dec, b: Dec) -> (r: Result<Dec, MathError>)
    requires
        a.wf(),
        b.wf(),
    ensures
        r == spec_apply(op, a, b),
        (r matches Ok(v) ==> v.wf()),
{
    match op {
        Operator::Plus => a.checked_add(b),
        Operator::Minus => a.checked_sub(b),
        Operator::Times => a.checked_mul(b),
        Operator::Divide => a.checked_div(b),
        Operator::Power => power(a, b),
    }
}

/// Whether a token parses as a numeric literal — the one classification
/// predicate shared by the validator and the evaluator, total and free of
/// side effects.
pub fn is_numeric(string: &str) -> (r: bool)
    ensures
        r == (parse_spec(string@) is Some),
{
    parse_decimal(string).is_some()
}

/// The stack-depth scan over the tokens from index `i`, with `depth` values
/// currently available: numeric tokens raise the depth by one, operators
/// need two values and leave one, and exactly one value must remain at the
/// end.
pub open spec fn check_rec(ts: Seq<Seq<char>>, i: int, depth: int) -> bool
    decreases ts.len() - i,
{
    if i >= ts.len() {
        depth == 1
    } else if parse_spec(ts[i]) is Some {
        check_rec(ts, i + 1, depth + 1)
    } else if operator_of(ts[i]) is Some {
        depth >= 2 && check_rec(ts, i + 1, depth - 1)
    } else {
        false
    }
}

/// A valid postfix expression: at least three tokens, and the stack-depth
/// scan succeeds.
pub open spec fn valid_postfix(ts: Seq<Seq<char>>) -> bool {
    ts.len() >= 3 && check_rec(ts, 0, 0)
}

/// Validate an expression string.
///
/// The scan keeps the exact running stack depth, so it accepts precisely
/// the streams a single evaluation pass can consume without underflowing
/// and that leave one value.  This is deliberately stronger than a rule
/// that only compares cumulative token counts: such a rule would also let
/// through streams like `1 2 + + 3`, whose evaluation underflows mid-way.
#[verifier::loop_isolation(false)]
pub fn check_expression(expression: &str) -> (r: bool)
    ensures
        r == valid_postfix(split_spec(expression@)),
{
    let toks = tokenize(expression);
    let ghost ts = split_spec(expression@);
    let nt = toks.len();
    if nt < 3 {
        return false;
    }
    let mut depth: usize = 0;
    let mut i: usize = 0;
    while i < nt
        invariant
            i <= nt,
            depth <= i,
            check_rec(ts, 0, 0) == check_rec(ts, i as int, depth as int),
        decreases nt - i,
    {
        proof {
            assert(ts[i as int] == toks[i as int]@);
        }
        if is_numeric(toks[i].as_str()) {
            depth = depth + 1;
        } else {
            match operator_lookup(toks[i].as_str()) {
                Some(_) => {
                    if depth < 2 {
                        return false;
                    }
                    depth = depth - 1;
                },
                None => {
                    return false;
                },
            }
        }
        i = i + 1;
    }
    depth == 1
}

/// Evaluation outcomes that are not a value, distinguishable by kind.
#[derive(Clone, Copy, Debug, PartialEq, Eq, Structural)]
pub enum EvalError {
    /// The token stream is not a well-formed postfix expression: a token is
    /// neither numeric nor a known operator, an operator lacks operands, or
    /// the pass does not end with exactly one value.
    Malformed,
    /// An operator reported an arithmetic error.
    Arithmetic(MathError),
}

/// The stack machine over the tokens from index `i` with stack `st`: a
/// numeric token pushes its value; an operator pops the right then the left
/// operand and pushes the operator applied to them.
pub open spec fn eval_rec(ts: Seq<Seq<char>>, i: int, st: Seq<Dec>) -> Result<Dec, EvalError>
    decreases ts.len() - i,
{
    if i >= ts.len() {
        if st.len() == 1 {
            Ok(st[0])
        } else {
            Err(EvalError::Malformed)
        }
    } else {
        match parse_spec(ts[i]) {
            Some(d) => eval_rec(ts, i + 1, st.push(d)),
            None => match operator_of(ts[i]) {
                Some(op) => if st.len() < 2 {
                    Err(EvalError::Malformed)
                } else {
                    let b = st.last();
                    let a = st[st.len() - 2];
                    match spec_apply(op, a, b) {
                        Ok(v) => eval_rec(ts, i + 1, st.drop_last().drop_last().push(v)),
                        Err(e) => Err(EvalError::Arithmetic(e)),
                    }
                },
                None => Err(EvalError::Malformed),
            },
        }
    }
}

/// The meaning of an expression string under the evaluator.
pub open spec fn eval_spec(ts: Seq<Seq<char>>) -> Result<Dec, EvalError> {
    eval_rec(ts, 0, Seq::empty())
}

/// Evaluate an expression string with one left-to-right stack pass.
///
/// A stream that was not validated first may turn out malformed; that is
/// reported as [`EvalError::Malformed`] rather than a crash, and
/// [`lemma_validated_evaluates`] shows it cannot happen to a validated
/// stream.
#[verifier::loop_isolation(false)]
pub fn evaluate_expression(expression: &str) -> (r: Result<Dec, EvalError>)
    ensures
        r == eval_spec(split_spec(expression@)),
        (r matches Ok(v) ==> v.wf()),
{
    let toks = tokenize(expression);
    let ghost ts = split_spec(expression@);
    let nt = toks.len();
    let mut stack: Vec<Dec> = Vec::new();
    let mut i: usize = 0;
    proof {
        assert(stack@ =~= Seq::<Dec>::empty());
    }
    while i < nt
        invariant
            i <= nt,
            eval_rec(ts, 0, Seq::empty()) == eval_rec(ts, i as int, stack@),
            forall|j: int| 0 <= j < stack@.len() ==> (#[trigger] stack@[j]).wf(),
        decreases nt - i,
    {
        proof {
            assert(ts[i as int] == toks[i as int]@);
        }
        let ghost st0 = stack@;
        match parse_decimal(toks[i].as_str()) {
            Some(d) => {
                stack.push(d);
            },
            None => {
                match operator_lookup(toks[i].as_str()) {
                    Some(op) => {
                        if stack.len() < 2 {
                            return Err(EvalError::Malformed);
                        }
                        let b = stack.pop().unwrap();
                        let a = stack.pop().unwrap();
                        proof {
                            assert(b == st0.last());
                            assert(a == st0[st0.len() - 2]);
                            assert(stack@ =~= st0.drop_last().drop_last());
                        }
                        match apply_operator(op, a, b) {
                            Ok(v) => {
                                stack.push(v);
                            },
                            Err(e) => {
                                return Err(EvalError::Arithmetic(e));
                            },
                        }
                    },
                    None => {
                        return Err(EvalError::Malformed);
                    },
                }
            },
        }
        i = i + 1;
    }
    if stack.len() == 1 {
        let v = stack.pop().unwrap();
        Ok(v)
    } else {
        Err(EvalError::Malformed)
    }
}

proof fn lemma_check_rec_eval(ts: Seq<Seq<char>>, i: int, st: Seq<Dec>)
    requires
        0 <= i <= ts.len(),
        check_rec(ts, i, st.len() as int),
    ensures
        eval_rec(ts, i, st) != Err::<Dec, EvalError>(EvalError::Malformed),
    decreases ts.len() - i,
{
    if i < ts.len() {
        if parse_spec(ts[i]) is Some {
            lemma_check_rec_eval(ts, i + 1, st.push(parse_spec(ts[i]).unwrap()));
        } else if operator_of(ts[i]) is Some {
            let b = st.last();
            let a = st[st.len() - 2];
            match spec_apply(operator_of(ts[i]).unwrap(), a, b) {
                Ok(v) => {
                    lemma_check_rec_eval(ts, i + 1, st.drop_last().drop_last().push(v));
                },
                Err(e) => {},
            }
        }
    }
}

/// Law: a token stream accepted by the validator never underflows the
/// evaluator's stack and never ends with the wrong number of values —
/// evaluation yields a single value or reports an arithmetic error, never
/// a malformed-expression error.
pub proof fn lemma_validated_evaluates(s: Seq<char>)
    requires
        valid_postfix(split_spec(s)),
    ensures
        eval_spec(split_spec(s)) != Err::<Dec, EvalError>(EvalError::Malformed),
{
    lemma_check_rec_eval(split_spec(s), 0, Seq::empty());
}

/// The decimal digit string substituted for the token `pi`: an
/// approximation of the circle constant to the working precision.
pub open spec fn pi_digits() -> Seq<char> {
    "3.141592653589793"@
}

/// The decimal digit string substituted for the token `e`: an approximation
/// of the base of natural logarithms to the working precision.
pub open spec fn e_digits() -> Seq<char> {
    "2.718281828459045"@
}

/// A single token after constant substitution: only a token equal to a
/// whole reserved name is replaced, every other token is untouched.
pub open spec fn subst_token(t: Seq<char>) -> Seq<char> {
    if t == "pi"@ {
        pi_digits()
    } else if t == "e"@ {
        e_digits()
    } else {
        t
    }
}

/// All tokens after constant substitution.
pub open spec fn subst_tokens(ts: Seq<Seq<char>>) -> Seq<Seq<char>> {
    ts.map_values(|t: Seq<char>| subst_token(t))
}

/// Rewrite recognised constant names into literal decimal tokens.
///
/// The input is tokenised first and only whole, space-delimited tokens
/// equal to a reserved name are replaced, so substitution can never corrupt
/// the inside of an unrelated token.
#[verifier::loop_isolation(false)]
pub fn replace_constants(expression: String) -> (r: String)
    ensures
        r@ == join_spec(subst_tokens(split_spec(expression@))),
{
    let toks = tokenize(expression.as_str());
    let pi_name = String::from_str("pi");
    let e_name = String::from_str("e");
    let ghost all = subst_tokens(split_spec(expression@));
    let mut subst: Vec<String> = Vec::new();
    let nt = toks.len();
    let mut i: usize = 0;
    proof {
        assert(subst.deep_view() =~= all.take(0));
    }
    while i < nt
        invariant
            i <= nt,
            subst.deep_view() =~= all.take(i as int),
        decreases nt - i,
    {
        let ghost dv0 = subst.deep_view();
        proof {
            assert(toks[i as int]@ == split_spec(expression@)[i as int]);
            assert(all[i as int] == subst_token(toks[i as int]@));
        }
        if toks[i] == pi_name {
            subst.push(String::from_str("3.141592653589793"));
        } else if toks[i] == e_name {
            subst.push(String::from_str("2.718281828459045"));
        } else {
            let copy = String::from_str(toks[i].as_str());
            subst.push(copy);
        }
        proof {
            assert(subst.deep_view() =~= dv0.push(all[i as int]));
            assert(all.take(i + 1) =~= all.take(i as int).push(all[i as int]));
        }
        i = i + 1;
    }
    proof {
        assert(all.take(nt as int) =~= all);
    }
    join_tokens(&subst)
}

/// Law: substitution acts only on whole tokens equal to a reserved name.
/// A string none of whose tokens is `pi` or `e` comes back unchanged, so
/// running the substitutor again on its own output of such a string is a
/// no-op.
pub proof fn lemma_substitution_identity(s: Seq<char>)
    requires
        forall|j: int|
            0 <= j < split_spec(s).len() ==> (#[trigger] split_spec(s)[j]) != "pi"@ && split_spec(
                s,
            )[j] != "e"@,
    ensures
        join_spec(subst_tokens(split_spec(s))) == s,
{
    assert(subst_tokens(split_spec(s)) =~= split_spec(s));
    lemma_join_split(s);
}

proof fn lemma_subst_token_space_free(t: Seq<char>)
    requires
        forall|k: int| 0 <= k < t.len() ==> #[trigger] t[k] != ' ',
    ensures
        forall|k: int| 0 <= k < subst_token(t).len() ==> #[trigger] subst_token(t)[k] != ' ',
{
    reveal_strlit("3.141592653589793");
    reveal_strlit("2.718281828459045");
    if t == "pi"@ {
        assert forall|k: int| 0 <= k < pi_digits().len() implies #[trigger] pi_digits()[k]
            != ' ' by {}
    } else if t == "e"@ {
        assert forall|k: int| 0 <= k < e_digits().len() implies #[trigger] e_digits()[k]
            != ' ' by {}
    }
}

proof fn lemma_subst_token_idempotent(t: Seq<char>)
    ensures
        subst_token(subst_token(t)) == subst_token(t),
{
    reveal_strlit("3.141592653589793");
    reveal_strlit("2.718281828459045");
    reveal_strlit("pi");
    reveal_strlit("e");
    assert(pi_digits().len() == 17);
    assert(e_digits().len() == 17);
    assert(("pi"@).len() == 2);
    assert(("e"@).len() == 1);
}

/// Law: the substitutor is idempotent — running it a second time on its
/// own output changes nothing, because the substituted digit strings are
/// themselves ordinary numeric tokens and not reserved names.
pub proof fn lemma_substitution_idempotent(s: Seq<char>)
    ensures
        ({
            let once = join_spec(subst_tokens(split_spec(s)));
            join_spec(subst_tokens(split_spec(once))) == once
        }),
{
    let ts = split_spec(s);
    let us = subst_tokens(ts);
    lemma_split_tokens_space_free(s);
    assert forall|j: int, k: int|
        0 <= j < us.len() && 0 <= k < us[j].len() implies #[trigger] us[j][k] != ' ' by {
        assert(us[j] == subst_token(ts[j]));
        assert(forall|kk: int| 0 <= kk < ts[j].len() ==> #[trigger] ts[j][kk] != ' ');
        lemma_subst_token_space_free(ts[j]);
    }
    lemma_split_nonempty(s);
    lemma_split_join_inverse(us);
    assert(subst_tokens(us) =~= us) by {
        assert forall|j: int| 0 <= j < us.len() implies #[trigger] subst_tokens(us)[j]
            == us[j] by {
            assert(us[j] == subst_token(ts[j]));
            lemma_subst_token_idempotent(ts[j]);
        }
    }
}

/// The meaning of the full pipeline: substitute, validate, evaluate.  An
/// expression whose substituted form fails validation yields
/// [`EvalError::Malformed`] and no computation is performed.
pub open spec fn calculate_spec(s: Seq<char>) -> Result<Dec, EvalError> {
    let t = join_spec(subst_tokens(split_spec(s)));
    if valid_postfix(split_spec(t)) {
        eval_spec(split_spec(t))
    } else {
        Err(EvalError::Malformed)
    }
}

/// Substitute constants, validate, and evaluate as one operation — the
/// entry point a caller invokes per expression.  The caller decides what to
/// do with an error; nothing is computed for an invalid expression.
pub fn calculate(expression: &str) -> (r: Result<Dec, EvalError>)
    ensures
        r == calculate_spec(expression@),
        (r matches Ok(v) ==> v.wf()),
{
    let substituted = replace_constants(String::from_str(expression));
    if check_expression(substituted.as_str()) {
        evaluate_expression(substituted.as_str())
    } else {
        Err(EvalError::Malformed)
    }
}

} // verus!
