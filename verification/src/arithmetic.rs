//! The evaluator behind `#{...}` markers: variables are resolved in the
//! body, and what is left is evaluated as an arithmetic or boolean
//! expression.

use crate::error::{outcome_of, Failure, Outcome, SubstituteError};
use crate::layer::{Bindings, VariableLayer};
use crate::resolver::{lemma_resolve_body, resolve, resolve_chars};
use crate::text::{chars_of, is_brace_free, matches_at, occurs_at, string_of};
use vstd::prelude::*;

verus! {

/// What happens to an expression that cannot be evaluated.
#[derive(Clone, Copy, Debug, PartialEq, Eq, Structural)]
pub enum OnExpressionError {
    /// The substitution fails.
    Fail,
    /// The expression stands in the result as it was after variable
    /// resolution.
    Passthrough,
}

/// The longest expression, in characters, that is evaluated. The evaluator
/// descends once for every level of nesting, and a text bounds its own
/// nesting.
pub const MAX_EXPRESSION_LENGTH: usize = 512;

/// A character of arithmetic notation: a digit, the decimal point, the
/// exponent letter, white space, an operator sign or a parenthesis.
pub open spec fn is_arithmetic_char(c: char) -> bool {
    ||| '0' <= c <= '9'
    ||| c == '.' || c == 'e' || c == 'E'
    ||| c == ' ' || c == '\t' || c == '\n' || c == '\r'
    ||| c == '+' || c == '-' || c == '*' || c == '/' || c == '%' || c == '^'
    ||| c == '<' || c == '>' || c == '=' || c == '!' || c == '&' || c == '|'
    ||| c == '(' || c == ')'
}

/// `text`, from index `from` on, is written in arithmetic characters and
/// the words `true` and `false`.
pub open spec fn is_notation_from(text: Seq<char>, from: int) -> bool
    decreases text.len() - from,
{
    if from < 0 || from >= text.len() {
        true
    } else if is_arithmetic_char(text[from]) {
        is_notation_from(text, from + 1)
    } else if occurs_at(text, seq!['t', 'r', 'u', 'e'], from) {
        is_notation_from(text, from + 4)
    } else if occurs_at(text, seq!['f', 'a', 'l', 's', 'e'], from) {
        is_notation_from(text, from + 5)
    } else {
        false
    }
}

/// `text` is an arithmetic or boolean expression as far as its alphabet
/// goes, and short enough to be evaluated. Such a text names no variable
/// and no function and holds no string.
pub open spec fn is_arithmetic(text: Seq<char>) -> bool {
    text.len() <= MAX_EXPRESSION_LENGTH && is_notation_from(text, 0)
}

/// The mathematical value of what the evaluator returned.
pub open spec fn value_of(value: Option<String>) -> Option<Seq<char>> {
    match value {
        Some(v) => Some(v@),
        None => None,
    }
}

/// What an expression comes to, given what the evaluator made of it
/// (`None` where it made nothing of it).
pub open spec fn settled(
    resolved: Seq<char>,
    value: Option<Seq<char>>,
    on_error: OnExpressionError,
) -> Outcome {
    match value {
        Some(v) => Ok(v),
        None => match on_error {
            OnExpressionError::Passthrough => Ok(resolved),
            OnExpressionError::Fail => Err(Failure::ExpressionEvaluationFailure(resolved)),
        },
    }
}

/// The value of an arithmetic expression without powers, written out;
/// `None` where the expression has no value.
pub uninterp spec fn evaluated(expression: Seq<char>) -> Option<Seq<char>>;

/// `outcome` is what the body of an expression marker may come to: its
/// variables are resolved against both layers. A resolved text that is no
/// arithmetic expression is settled as one without a value; an arithmetic
/// expression without powers is settled with its value; one with powers
/// with whatever the evaluator returns for it. No value holds a closing
/// brace.
pub open spec fn arithmetic_gives(
    body: Seq<char>,
    env: Bindings,
    data: Bindings,
    on_error: OnExpressionError,
    outcome: Outcome,
) -> bool {
    let resolved = resolve(resolve(body, env), data);
    if !is_arithmetic(resolved) {
        outcome == settled(resolved, None, on_error)
    } else if !resolved.contains('^') {
        is_brace_free(evaluated(resolved)) && outcome == settled(
            resolved,
            evaluated(resolved),
            on_error,
        )
    } else {
        exists|value: Option<Seq<char>>|
            is_brace_free(value) && outcome == settled(resolved, value, on_error)
    }
}

/// The value that the body of a marker comes to holds no closing brace,
/// as the body holds none.
pub proof fn lemma_arithmetic_value_is_brace_free(
    body: Seq<char>,
    env: Bindings,
    data: Bindings,
    on_error: OnExpressionError,
    outcome: Outcome,
)
    requires
        !body.contains('}'),
        arithmetic_gives(body, env, data, on_error, outcome),
    ensures
        outcome matches Ok(value) ==> !value.contains('}'),
        outcome matches Err(failure) ==> on_error is Fail && failure
            == Failure::ExpressionEvaluationFailure(body),
{
    lemma_resolve_body(body, env);
    lemma_resolve_body(body, data);
}

#[verifier::external_type_specification]
#[verifier::external_body]
pub struct ExEvalexprError(evalexpr::EvalexprError);

/// Evaluates `expression` with `evalexpr::eval`, in a context of its own,
/// and writes the value with its `Display`. Only arithmetic expressions
/// are admitted: a text that names a function, binds a variable or holds
/// a string can make the evaluator stop the process, and so can one that
/// nests too deep. Such an expression comes to a number, a truth value or
/// the empty value, none of which is written with a closing brace. Where
/// it holds no power sign, its value is a function of the text alone:
/// integers are computed with checks and floating point with the basic
/// operations. Of a power only the above is claimed: its last digits the
/// machine decides.
#[verifier::external_body]
fn eval(expression: &str) -> (value: Result<String, evalexpr::EvalexprError>)
    requires
        is_arithmetic(expression@),
    ensures
        value matches Ok(v) ==> !v@.contains('}'),
        !expression@.contains('^') ==> match value {
            Ok(v) => evaluated(expression@) == Some(v@),
            Err(_) => evaluated(expression@) is None,
        },
{
    match evalexpr::eval(expression) {
        Ok(v) => Ok(v.to_string()),
        Err(e) => Err(e),
    }
}

/// Tells whether `c` is a character of arithmetic notation.
fn is_arithmetic_symbol(c: char) -> (yes: bool)
    ensures
        yes == is_arithmetic_char(c),
{
    ('0' <= c && c <= '9') || c == '.' || c == 'e' || c == 'E' || c == ' ' || c == '\t' || c
        == '\n' || c == '\r' || c == '+' || c == '-' || c == '*' || c == '/' || c == '%' || c
        == '^' || c == '<' || c == '>' || c == '=' || c == '!' || c == '&' || c == '|' || c == '('
        || c == ')'
}

/// Tells whether `expression` is an arithmetic expression that can be
/// evaluated.
pub fn is_evaluable(expression: &[char]) -> (yes: bool)
    ensures
        yes == is_arithmetic(expression@),
{
    if expression.len() > MAX_EXPRESSION_LENGTH {
        return false;
    }
    let yes_word = vec!['t', 'r', 'u', 'e'];
    let no_word = vec!['f', 'a', 'l', 's', 'e'];
    assert(yes_word@ =~= seq!['t', 'r', 'u', 'e']);
    assert(no_word@ =~= seq!['f', 'a', 'l', 's', 'e']);
    let mut i: usize = 0;
    while i < expression.len()
        invariant
            i <= expression.len() <= MAX_EXPRESSION_LENGTH,
            yes_word@ == seq!['t', 'r', 'u', 'e'],
            no_word@ == seq!['f', 'a', 'l', 's', 'e'],
            is_notation_from(expression@, 0) == is_notation_from(expression@, i as int),
        decreases expression.len() - i,
    {
        if is_arithmetic_symbol(expression[i]) {
            i += 1;
        } else if matches_at(expression, yes_word.as_slice(), i) {
            i += 4;
        } else if matches_at(expression, no_word.as_slice(), i) {
            i += 5;
        } else {
            return false;
        }
    }
    true
}

/// Settles an expression, resolved already, with what the evaluator made
/// of it.
pub fn settle_expression(
    resolved: String,
    value: Option<String>,
    on_error: OnExpressionError,
) -> (result: Result<String, SubstituteError>)
    ensures
        outcome_of(result) == settled(resolved@, value_of(value), on_error),
{
    match value {
        Some(v) => Ok(v),
        None => match on_error {
            OnExpressionError::Passthrough => Ok(resolved),
            OnExpressionError::Fail => Err(SubstituteError::ExpressionEvaluationFailure(resolved)),
        },
    }
}

/// Evaluates the body of an expression marker: resolves its variables
/// against `env` and then `data`, evaluates the resolved text where it is
/// an arithmetic expression, and settles it by `on_error` where it has no
/// value.
pub fn evaluate_arithmetic(
    body: &str,
    env: &VariableLayer,
    data: &VariableLayer,
    on_error: OnExpressionError,
) -> (result: Result<String, SubstituteError>)
    ensures
        arithmetic_gives(body@, env@, data@, on_error, outcome_of(result)),
        on_error is Passthrough ==> result is Ok,
        !body@.contains('}') && !is_arithmetic(body@) ==> outcome_of(result) == settled(
            body@,
            None,
            on_error,
        ),
        !body@.contains('}') && is_arithmetic(body@) && !body@.contains('^') ==> outcome_of(result)
            == settled(body@, evaluated(body@), on_error),
        !body@.contains('}') ==> (result matches Ok(v) ==> !v@.contains('}')),
{
    proof {
        if !body@.contains('}') {
            lemma_resolve_body(body@, env@);
            lemma_resolve_body(body@, data@);
        }
    }
    let resolved_chars = resolve_chars(resolve_chars(chars_of(body), env), data);
    let resolved = string_of(resolved_chars.as_slice());
    let value = if is_evaluable(resolved_chars.as_slice()) {
        match eval(resolved.as_str()) {
            Ok(v) => Some(v),
            Err(_) => None,
        }
    } else {
        None
    };
    let ghost seen = value_of(value);
    let result = settle_expression(resolved, value, on_error);
    proof {
        assert(is_brace_free(seen));
        assert(outcome_of(result) == settled(resolve(resolve(body@, env@), data@), seen, on_error));
        if !body@.contains('}') {
            lemma_arithmetic_value_is_brace_free(body@, env@, data@, on_error, outcome_of(result));
        }
    }
    result
}

} // verus!
