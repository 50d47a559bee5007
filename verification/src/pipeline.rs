//! The pipeline: variables of both layers, then expression markers, then
//! generator markers.

use crate::arithmetic::{
    arithmetic_gives, evaluate_arithmetic, lemma_arithmetic_value_is_brace_free, OnExpressionError,
};
use crate::error::{outcome_of, Failure, Outcome, SubstituteError};
use crate::generator::{
    directive_of, evaluate_expression, generated, generated_at, lemma_generated_is_brace_free,
    needs_clock, rfc3339_text, Timestamp,
};
use crate::layer::{Bindings, VariableLayer};
use crate::resolver::{
    lemma_resolve_single, lemma_resolve_without_placeholders, manual_substitute,
    no_placeholder_of, placeholder, resolve,
};
use crate::scanner::{
    closing_braces, gives, has_span, is_span, lemma_closing_braces_bound, lemma_first_span_body,
    lemma_pass_ends_by_itself, lemma_pass_without_span, lemma_rewrites_take_braces, passes_with,
    substitute_expressions_within, Pass,
};
use crate::text::{occurs_at, occurs_in, replace_all};
use vstd::prelude::*;

verus! {

/// How a substitution is to be carried out.
#[derive(Clone, Copy, Debug, PartialEq, Eq, Structural)]
pub struct Options {
    /// What happens to an expression that cannot be evaluated.
    pub on_expression_error: OnExpressionError,
    /// The number of rewrites that each pass may make.
    pub max_rewrites: usize,
}

impl Options {
    /// The options of `Options::new`.
    pub open spec fn default_options() -> Options {
        Options { on_expression_error: OnExpressionError::Passthrough, max_rewrites: usize::MAX }
    }

    /// Expressions that cannot be evaluated pass through, and a pass makes
    /// as many rewrites as a machine can count.
    pub fn new() -> (options: Options)
        ensures
            options == Options::default_options(),
    {
        Options { on_expression_error: OnExpressionError::Passthrough, max_rewrites: usize::MAX }
    }
}

/// `pass` is a complete pass over the expression markers of `input`.
pub open spec fn expression_pass(
    input: Seq<char>,
    env: Bindings,
    data: Bindings,
    options: Options,
    pass: Pass,
) -> bool {
    &&& pass.follows('#', input, options.max_rewrites as nat)
    &&& pass.complete('#', options.max_rewrites as nat)
    &&& forall|i: int|
        0 <= i < pass.outcomes.len() ==> arithmetic_gives(
            pass.body('#', i),
            env,
            data,
            options.on_expression_error,
            #[trigger] pass.outcomes[i],
        )
}

/// `pass` is a complete pass over the generator markers of `input`.
pub open spec fn generator_pass(input: Seq<char>, options: Options, pass: Pass) -> bool {
    &&& pass.follows('!', input, options.max_rewrites as nat)
    &&& pass.complete('!', options.max_rewrites as nat)
    &&& forall|i: int|
        0 <= i < pass.outcomes.len() ==> generated(pass.body('!', i), #[trigger] pass.outcomes[i])
}

/// `outcome` is what the two passes come to: the failure of the first, or
/// else whatever the second returns on the text the first returned.
pub open spec fn passes_give(
    resolved: Seq<char>,
    env: Bindings,
    data: Bindings,
    options: Options,
    expressions: Pass,
    generators: Pass,
    outcome: Outcome,
) -> bool {
    &&& expression_pass(resolved, env, data, options, expressions)
    &&& match expressions.result('#') {
        Err(failure) => outcome == Err::<Seq<char>, Failure>(failure),
        Ok(text) => generator_pass(text, options, generators) && outcome == generators.result('!'),
    }
}

/// `outcome` is what the substitution of `template` may come to: both
/// layers are resolved, `env` first, and the two passes run on the result.
pub open spec fn substituted(
    template: Seq<char>,
    env: Bindings,
    data: Bindings,
    options: Options,
    outcome: Outcome,
) -> bool {
    exists|expressions: Pass, generators: Pass|
        passes_give(
            resolve(resolve(template, env), data),
            env,
            data,
            options,
            expressions,
            generators,
            outcome,
        )
}

/// The failures that a substitution can end in: an expression without a
/// value only where the options ask for that failure, and never a
/// malformed marker pattern.
pub open spec fn is_possible_failure(options: Options, failure: Failure) -> bool {
    match failure {
        Failure::MalformedMarkerPattern => false,
        Failure::ExpressionEvaluationFailure(_) => options.on_expression_error is Fail,
        Failure::UnsupportedGeneratorDirective(_) => true,
        Failure::RewriteLimitExceeded => true,
    }
}

/// A substitution fails only in one of the ways that its options allow.
pub proof fn lemma_substituted_failures(
    template: Seq<char>,
    env: Bindings,
    data: Bindings,
    options: Options,
    outcome: Outcome,
)
    requires
        substituted(template, env, data, options, outcome),
    ensures
        outcome matches Err(failure) ==> is_possible_failure(options, failure),
{
    let resolved = resolve(resolve(template, env), data);
    let (expressions, generators) = choose|expressions: Pass, generators: Pass|
        passes_give(resolved, env, data, options, expressions, generators, outcome);
    if expressions.outcomes.len() == expressions.texts.len() {
        let last = expressions.outcomes.len() - 1;
        assert(arithmetic_gives(
            expressions.body('#', last),
            env,
            data,
            options.on_expression_error,
            expressions.outcomes[last],
        ));
    }
    if expressions.result('#') is Ok && generators.outcomes.len() == generators.texts.len() {
        let last = generators.outcomes.len() - 1;
        assert(generated(generators.body('!', last), generators.outcomes[last]));
    }
}

/// A substitution that may make as many rewrites as the resolved template
/// has closing braces is never cut short: no value holds a closing brace,
/// so every rewrite takes one out of the text.
pub proof fn lemma_substituted_within_limit(
    template: Seq<char>,
    env: Bindings,
    data: Bindings,
    options: Options,
    outcome: Outcome,
)
    requires
        substituted(template, env, data, options, outcome),
        closing_braces(resolve(resolve(template, env), data)) <= options.max_rewrites,
    ensures
        outcome != Err::<Seq<char>, Failure>(Failure::RewriteLimitExceeded),
{
    let resolved = resolve(resolve(template, env), data);
    let limit = options.max_rewrites as nat;
    let (expressions, generators) = choose|expressions: Pass, generators: Pass|
        passes_give(resolved, env, data, options, expressions, generators, outcome);
    assert forall|i: int| 0 <= i < expressions.outcomes.len() implies (
    #[trigger] expressions.outcomes[i] matches Ok(value) ==> !value.contains('}')) && (
    expressions.outcomes[i] matches Err(failure) ==> failure is ExpressionEvaluationFailure) by {
        lemma_first_span_body('#', expressions.texts[i]);
        lemma_arithmetic_value_is_brace_free(
            expressions.body('#', i),
            env,
            data,
            options.on_expression_error,
            expressions.outcomes[i],
        );
    }
    lemma_pass_ends_by_itself('#', resolved, limit, expressions);
    if expressions.outcomes.len() == expressions.texts.len() {
        assert(expressions.outcomes.last() == expressions.outcomes[expressions.outcomes.len() - 1]);
    }
    if let Ok(text) = expressions.result('#') {
        lemma_rewrites_take_braces(
            '#',
            resolved,
            limit,
            expressions,
            expressions.texts.len() - 1,
        );
        assert forall|i: int| 0 <= i < generators.outcomes.len() implies (
        #[trigger] generators.outcomes[i] matches Ok(value) ==> !value.contains('}')) && (
        generators.outcomes[i] matches Err(failure) ==> failure
            is UnsupportedGeneratorDirective) by {
            lemma_first_span_body('!', generators.texts[i]);
            let written = generators.body('!', i);
            assert(generated(written, generators.outcomes[i]));
            let now = choose|now: Timestamp|
                (needs_clock(directive_of(written)) ==> rfc3339_text(now.seconds, now.nanos)
                    is Some) && generated_at(written, now, generators.outcomes[i]);
            lemma_generated_is_brace_free(written, now, generators.outcomes[i]);
        }
        lemma_pass_ends_by_itself('!', text, limit, generators);
        if generators.outcomes.len() == generators.texts.len() {
            assert(generators.outcomes.last() == generators.outcomes[generators.outcomes.len()
                - 1]);
        }
    }
}

/// `template` holds nothing to substitute: no placeholder of either layer
/// and no marker span.
pub open spec fn nothing_to_substitute(template: Seq<char>, env: Bindings, data: Bindings) -> bool {
    &&& no_placeholder_of(template, env)
    &&& no_placeholder_of(template, data)
    &&& !has_span('#', template)
    &&& !has_span('!', template)
}

/// One of the three characters that open a marker.
pub open spec fn is_marker_char(c: char) -> bool {
    c == '$' || c == '#' || c == '!'
}

/// `template` holds no marker of any kind: no `$`, `#` or `!` with an
/// opening brace behind it.
pub open spec fn is_plain(template: Seq<char>) -> bool {
    forall|i: int|
        0 <= i < template.len() - 1 && is_marker_char(#[trigger] template[i]) ==> template[i + 1]
            != '{'
}

/// Where the resolved template holds no marker span, the substitution
/// comes to the resolved template and to nothing else.
pub proof fn lemma_substituted_without_span(
    template: Seq<char>,
    env: Bindings,
    data: Bindings,
    options: Options,
    outcome: Outcome,
)
    requires
        substituted(template, env, data, options, outcome),
        !has_span('#', resolve(resolve(template, env), data)),
        !has_span('!', resolve(resolve(template, env), data)),
    ensures
        outcome == Ok::<Seq<char>, Failure>(resolve(resolve(template, env), data)),
{
    let resolved = resolve(resolve(template, env), data);
    let (expressions, generators) = choose|expressions: Pass, generators: Pass|
        passes_give(resolved, env, data, options, expressions, generators, outcome);
    lemma_pass_without_span('#', resolved, options.max_rewrites as nat, expressions);
    lemma_pass_without_span('!', resolved, options.max_rewrites as nat, generators);
}

/// A plain template holds nothing to substitute, whatever the layers bind.
pub proof fn lemma_plain_has_nothing_to_substitute(
    template: Seq<char>,
    env: Bindings,
    data: Bindings,
)
    requires
        is_plain(template),
    ensures
        nothing_to_substitute(template, env, data),
{
    assert forall|name: Seq<char>| !occurs_in(template, #[trigger] placeholder(name)) by {
        let pattern = placeholder(name);
        assert forall|at: int| !occurs_at(template, pattern, at) by {
            if occurs_at(template, pattern, at) {
                let window = template.subrange(at, at + pattern.len());
                assert(window[0] == '$' && window[1] == '{');
                assert(template[at] == '$' && template[at + 1] == '{');
            }
        }
    }
    assert forall|s: int, e: int| !is_span('#', template, s, e) && !is_span('!', template, s, e) by {
        if is_span('#', template, s, e) || is_span('!', template, s, e) {
            assert(template[s + 1] == '{');
        }
    }
}

/// A template without any marker is returned unchanged: the substitution
/// comes to the template itself and to nothing else.
pub proof fn lemma_plain_template_unchanged(
    template: Seq<char>,
    env: Bindings,
    data: Bindings,
    options: Options,
    outcome: Outcome,
)
    requires
        is_plain(template),
        substituted(template, env, data, options, outcome),
    ensures
        outcome == Ok::<Seq<char>, Failure>(template),
{
    lemma_plain_has_nothing_to_substitute(template, env, data);
    lemma_resolve_without_placeholders(template, env);
    lemma_resolve_without_placeholders(template, data);
    lemma_substituted_without_span(template, env, data, options, outcome);
}

/// With one binding in one layer and none in the other, the substitution
/// is the literal replacement of `${name}` by the value, provided the
/// replacement leaves no marker span.
pub proof fn lemma_single_binding_is_replacement(
    template: Seq<char>,
    name: Seq<char>,
    value: Seq<char>,
    options: Options,
    outcome: Outcome,
)
    requires
        !has_span('#', replace_all(template, placeholder(name), value)),
        !has_span('!', replace_all(template, placeholder(name), value)),
        substituted(template, seq![(name, value)], Bindings::empty(), options, outcome)
            || substituted(template, Bindings::empty(), seq![(name, value)], options, outcome),
    ensures
        outcome == Ok::<Seq<char>, Failure>(replace_all(template, placeholder(name), value)),
{
    let single = seq![(name, value)];
    let none = Bindings::empty();
    lemma_resolve_single(template, name, value);
    assert(resolve(template, none) == template);
    assert(resolve(resolve(template, single), none) == resolve(template, single));
    if substituted(template, single, none, options, outcome) {
        lemma_substituted_without_span(template, single, none, options, outcome);
    } else {
        lemma_substituted_without_span(template, none, single, options, outcome);
    }
}

/// Substituting again in a result that holds nothing to substitute
/// returns that result.
pub proof fn lemma_substitute_again(
    template: Seq<char>,
    env: Bindings,
    data: Bindings,
    options: Options,
    first: Seq<char>,
    second: Outcome,
)
    requires
        substituted(template, env, data, options, Ok(first)),
        nothing_to_substitute(first, env, data),
        substituted(first, env, data, options, second),
    ensures
        second == Ok::<Seq<char>, Failure>(first),
{
    lemma_resolve_without_placeholders(first, env);
    lemma_resolve_without_placeholders(first, data);
    lemma_substituted_without_span(first, env, data, options, second);
}

/// Substitutes as `substitute` does, with the options given.
pub fn substitute_with(
    template: &str,
    env_vars: &VariableLayer,
    data_store: &VariableLayer,
    options: Options,
) -> (result: Result<String, SubstituteError>)
    ensures
        substituted(template@, env_vars@, data_store@, options, outcome_of(result)),
        outcome_of(result) matches Err(failure) ==> is_possible_failure(options, failure),
        closing_braces(resolve(resolve(template@, env_vars@), data_store@)) <= options.max_rewrites
            ==> outcome_of(result) != Err::<Seq<char>, Failure>(Failure::RewriteLimitExceeded),
        options.max_rewrites == usize::MAX ==> outcome_of(result) != Err::<Seq<char>, Failure>(
            Failure::RewriteLimitExceeded,
        ),
        nothing_to_substitute(template@, env_vars@, data_store@) ==> outcome_of(result) == Ok::<
            Seq<char>,
            Failure,
        >(template@),
        !has_span('#', resolve(resolve(template@, env_vars@), data_store@)) && !has_span(
            '!',
            resolve(resolve(template@, env_vars@), data_store@),
        ) ==> outcome_of(result) == Ok::<Seq<char>, Failure>(
            resolve(resolve(template@, env_vars@), data_store@),
        ),
{
    let first = manual_substitute(template, env_vars);
    let second = manual_substitute(first.as_str(), data_store);
    let on_error = options.on_expression_error;
    let arithmetic = |body: String| -> (r: Result<String, SubstituteError>)
        ensures
            arithmetic_gives(body@, env_vars@, data_store@, on_error, outcome_of(r)),
        { evaluate_arithmetic(body.as_str(), env_vars, data_store, on_error) };
    let third = substitute_expressions_within(
        '#',
        second.as_str(),
        arithmetic,
        options.max_rewrites,
    );
    let ghost expressions = choose|pass: Pass|
        passes_with('#', second@, arithmetic, options.max_rewrites as nat, pass) && outcome_of(
            third,
        ) == pass.result('#');
    proof {
        assert forall|i: int| 0 <= i < expressions.outcomes.len() implies arithmetic_gives(
            expressions.body('#', i),
            env_vars@,
            data_store@,
            on_error,
            #[trigger] expressions.outcomes[i],
        ) by {
            assert(gives(arithmetic, expressions.body('#', i), expressions.outcomes[i]));
        }
        assert(expression_pass(second@, env_vars@, data_store@, options, expressions));
        if nothing_to_substitute(template@, env_vars@, data_store@) {
            lemma_resolve_without_placeholders(template@, env_vars@);
            lemma_resolve_without_placeholders(template@, data_store@);
        }
    }
    let text = match third {
        Err(e) => {
            proof {
                assert(passes_give(
                    second@,
                    env_vars@,
                    data_store@,
                    options,
                    expressions,
                    expressions,
                    outcome_of(Err(e)),
                ));
                lemma_substituted_failures(
                    template@,
                    env_vars@,
                    data_store@,
                    options,
                    outcome_of(Err(e)),
                );
                lemma_closing_braces_bound(second@);
                if closing_braces(second@) <= options.max_rewrites {
                    lemma_substituted_within_limit(
                        template@,
                        env_vars@,
                        data_store@,
                        options,
                        outcome_of(Err(e)),
                    );
                }
            }
            return Err(e);
        },
        Ok(text) => text,
    };
    let generator = |body: String| -> (r: Result<String, SubstituteError>)
        ensures
            generated(body@, outcome_of(r)),
        { evaluate_expression(body.as_str()) };
    let fourth = substitute_expressions_within('!', text.as_str(), generator, options.max_rewrites);
    proof {
        let generators = choose|pass: Pass|
            passes_with('!', text@, generator, options.max_rewrites as nat, pass) && outcome_of(
                fourth,
            ) == pass.result('!');
        assert forall|i: int| 0 <= i < generators.outcomes.len() implies generated(
            generators.body('!', i),
            #[trigger] generators.outcomes[i],
        ) by {
            assert(gives(generator, generators.body('!', i), generators.outcomes[i]));
        }
        assert(generator_pass(text@, options, generators));
        assert(passes_give(
            second@,
            env_vars@,
            data_store@,
            options,
            expressions,
            generators,
            outcome_of(fourth),
        ));
        lemma_substituted_failures(
            template@,
            env_vars@,
            data_store@,
            options,
            outcome_of(fourth),
        );
        lemma_closing_braces_bound(second@);
        if closing_braces(second@) <= options.max_rewrites {
            lemma_substituted_within_limit(
                template@,
                env_vars@,
                data_store@,
                options,
                outcome_of(fourth),
            );
        }
    }
    fourth
}

/// Substitutes the placeholders and markers of `gauge_param`: `${name}`
/// from `env_vars` and then from `data_store`, then every `#{expression}`
/// by its value, or by itself where it has none, then every
/// `!{directive}` by what its generator gives. Returns the text with
/// everything substituted, or the failure of the first directive that no
/// generator serves.
pub fn substitute(gauge_param: &str, env_vars: VariableLayer, data_store: VariableLayer) -> (result:
    Result<String, SubstituteError>)
    ensures
        substituted(
            gauge_param@,
            env_vars@,
            data_store@,
            Options::default_options(),
            outcome_of(result),
        ),
        outcome_of(result) matches Err(failure) ==> failure is UnsupportedGeneratorDirective,
        nothing_to_substitute(gauge_param@, env_vars@, data_store@) ==> outcome_of(result) == Ok::<
            Seq<char>,
            Failure,
        >(gauge_param@),
        !has_span('#', resolve(resolve(gauge_param@, env_vars@), data_store@)) && !has_span(
            '!',
            resolve(resolve(gauge_param@, env_vars@), data_store@),
        ) ==> outcome_of(result) == Ok::<Seq<char>, Failure>(
            resolve(resolve(gauge_param@, env_vars@), data_store@),
        ),
{
    substitute_with(gauge_param, &env_vars, &data_store, Options::new())
}

} // verus!
