//! The failures of a substitution.

use vstd::prelude::*;
use vstd::string::StringExecFns;

verus! {

/// Why a substitution failed.
#[derive(Debug, PartialEq, Eq)]
pub enum SubstituteError {
    /// The marker character cannot be used to build a marker pattern.
    MalformedMarkerPattern,
    /// A generator directive is none of `uuid`, `time`, `time:<format>`, or
    /// its format cannot be rendered; carries the directive as written.
    UnsupportedGeneratorDirective(String),
    /// An expression could not be evaluated and the policy in force asks
    /// for a failure; carries the expression after variable resolution.
    ExpressionEvaluationFailure(String),
    /// More rewrites were needed than the limit in force allows.
    RewriteLimitExceeded,
}

/// The mathematical value of a `SubstituteError`.
pub enum Failure {
    MalformedMarkerPattern,
    UnsupportedGeneratorDirective(Seq<char>),
    ExpressionEvaluationFailure(Seq<char>),
    RewriteLimitExceeded,
}

/// What one evaluation or one whole pass ends in: a text or a failure.
pub type Outcome = Result<Seq<char>, Failure>;

impl View for SubstituteError {
    type V = Failure;

    open spec fn view(&self) -> Failure {
        match self {
            SubstituteError::MalformedMarkerPattern => Failure::MalformedMarkerPattern,
            SubstituteError::UnsupportedGeneratorDirective(d) => Failure::UnsupportedGeneratorDirective(d@),
            SubstituteError::ExpressionEvaluationFailure(e) => Failure::ExpressionEvaluationFailure(e@),
            SubstituteError::RewriteLimitExceeded => Failure::RewriteLimitExceeded,
        }
    }
}

/// The mathematical value of a result of the library.
pub open spec fn outcome_of(r: Result<String, SubstituteError>) -> Outcome {
    match r {
        Ok(s) => Ok(s@),
        Err(e) => Err(e@),
    }
}

/// The message of a failure, as a sequence of characters.
pub open spec fn message_of(failure: Failure) -> Seq<char> {
    match failure {
        Failure::MalformedMarkerPattern => "malformed marker pattern"@,
        Failure::UnsupportedGeneratorDirective(d) => "unsupported substitute "@ + d,
        Failure::ExpressionEvaluationFailure(e) => "cannot evaluate expression "@ + e,
        Failure::RewriteLimitExceeded => "rewrite limit exceeded"@,
    }
}

impl SubstituteError {
    /// A one-line description of the failure, naming the directive or the
    /// expression it is about.
    pub fn message(&self) -> (m: String)
        ensures
            m@ == message_of(self@),
    {
        match self {
            SubstituteError::MalformedMarkerPattern => String::from_str("malformed marker pattern"),
            SubstituteError::UnsupportedGeneratorDirective(d) => {
                String::from_str("unsupported substitute ").concat(d.as_str())
            },
            SubstituteError::ExpressionEvaluationFailure(e) => {
                String::from_str("cannot evaluate expression ").concat(e.as_str())
            },
            SubstituteError::RewriteLimitExceeded => String::from_str("rewrite limit exceeded"),
        }
    }
}

} // verus!
