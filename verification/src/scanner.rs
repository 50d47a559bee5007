//! Marker spans: finding the leftmost `<marker>{<body>}` in a text and
//! splicing a value in its place.

use crate::error::{outcome_of, Failure, Outcome, SubstituteError};
use crate::text::{chars_of, string_of, string_of_range};
use vstd::prelude::*;

verus! {

/// A marker span inside a text: `start` is the index of the marker
/// character, `end` the index just past the closing brace.
#[derive(Clone, Copy, Debug, PartialEq, Eq, Structural)]
pub struct Span {
    pub start: usize,
    pub end: usize,
}

/// Characters with which no marker pattern can be built: written in
/// front of the opening brace, each of them leaves a pattern that is not
/// well formed.
pub open spec fn is_pattern_metachar(c: char) -> bool {
    c == '\\' || c == '+' || c == '*' || c == '?' || c == '(' || c == ')' || c == '[' || c == '{'
}

/// Tells whether `c` can serve as the marker character.
pub fn is_marker(c: char) -> (yes: bool)
    ensures
        yes == !is_pattern_metachar(c),
{
    !(c == '\\' || c == '+' || c == '*' || c == '?' || c == '(' || c == ')' || c == '[' || c
        == '{')
}

/// `text[start..end]` is a marker span for `marker`: the marker character,
/// an opening brace, a non-empty body without any closing brace, and the
/// closing brace.
pub open spec fn is_span(marker: char, text: Seq<char>, start: int, end: int) -> bool {
    &&& 0 <= start
    &&& start + 4 <= end <= text.len()
    &&& text[start] == marker
    &&& text[start + 1] == '{'
    &&& text[end - 1] == '}'
    &&& forall|k: int| start + 2 <= k < end - 1 ==> text[k] != '}'
}

/// `text[start..end]` is a marker span and no marker span starts before it.
pub open spec fn is_leftmost_span(marker: char, text: Seq<char>, start: int, end: int) -> bool {
    &&& is_span(marker, text, start, end)
    &&& forall|s: int, e: int| 0 <= s < start ==> !is_span(marker, text, s, e)
}

/// Some marker span for `marker` lies in `text`.
pub open spec fn has_span(marker: char, text: Seq<char>) -> bool {
    exists|s: int, e: int| is_span(marker, text, s, e)
}

/// The leftmost marker span of `text`, if it has any.
pub open spec fn first_span(marker: char, text: Seq<char>) -> Option<Span> {
    if exists|sp: Span| is_leftmost_span(marker, text, sp.start as int, sp.end as int) {
        Some(choose|sp: Span| is_leftmost_span(marker, text, sp.start as int, sp.end as int))
    } else {
        None
    }
}

/// The body of a span: what stands between the braces.
pub open spec fn span_body(text: Seq<char>, span: Span) -> Seq<char> {
    text.subrange(span.start + 2, span.end - 1)
}

/// `text` with the whole span, delimiters included, replaced by `value`.
pub open spec fn splice(text: Seq<char>, span: Span, value: Seq<char>) -> Seq<char> {
    text.subrange(0, span.start as int) + value + text.subrange(
        span.end as int,
        text.len() as int,
    )
}

/// A span that starts at a given index ends at the first closing brace
/// behind its body, so two spans with one start are one span.
pub proof fn lemma_span_end_unique(marker: char, text: Seq<char>, start: int, e1: int, e2: int)
    requires
        is_span(marker, text, start, e1),
        is_span(marker, text, start, e2),
    ensures
        e1 == e2,
{
    if e1 < e2 {
        assert(text[e1 - 1] == '}');
    } else if e2 < e1 {
        assert(text[e2 - 1] == '}');
    }
}

/// The leftmost span is unique, so `first_span` names it.
pub proof fn lemma_first_span_is(marker: char, text: Seq<char>, span: Span)
    requires
        is_leftmost_span(marker, text, span.start as int, span.end as int),
    ensures
        first_span(marker, text) == Some(span),
{
    let found = choose|sp: Span| is_leftmost_span(marker, text, sp.start as int, sp.end as int);
    assert(found.start == span.start);
    lemma_span_end_unique(marker, text, span.start as int, span.end as int, found.end as int);
}

/// A text without any span has no first span.
pub proof fn lemma_first_span_none(marker: char, text: Seq<char>)
    requires
        !has_span(marker, text),
    ensures
        first_span(marker, text) is None,
{
}

/// Finds the leftmost marker span of `text`.
pub fn find_span(marker: char, text: &[char]) -> (found: Option<Span>)
    ensures
        found == first_span(marker, text@),
        found is Some <==> has_span(marker, text@),
        found matches Some(sp) ==> is_leftmost_span(marker, text@, sp.start as int, sp.end as int),
{
    let n = text.len();
    let mut i: usize = 0;
    while i < n
        invariant
            n == text.len(),
            i <= n,
            forall|s: int, e: int| 0 <= s < i ==> !is_span(marker, text@, s, e),
        decreases n - i,
    {
        if text[i] == marker && n - i > 3 && text[i + 1] == '{' && text[i + 2] != '}' {
            let mut j: usize = i + 3;
            while j < n && text[j] != '}'
                invariant
                    n == text.len(),
                    i + 3 <= j <= n,
                    forall|k: int| i + 2 <= k < j ==> text@[k] != '}',
                decreases n - j,
            {
                j += 1;
            }
            if j < n {
                let span = Span { start: i, end: j + 1 };
                proof {
                    lemma_first_span_is(marker, text@, span);
                }
                return Some(span);
            }
            proof {
                assert forall|s: int, e: int| !is_span(marker, text@, s, e) by {
                    if is_span(marker, text@, s, e) {
                        assert(text@[e - 1] == '}');
                    }
                }
                lemma_first_span_none(marker, text@);
            }
            return None;
        }
        i += 1;
    }
    proof {
        lemma_first_span_none(marker, text@);
    }
    None
}

/// Replaces `span` of `text` by `value`.
pub fn splice_span(text: &[char], span: Span, value: &[char]) -> (out: Vec<char>)
    requires
        span.start <= span.end <= text.len(),
    ensures
        out@ == splice(text@, span, value@),
{
    let mut out: Vec<char> = Vec::new();
    let mut k: usize = 0;
    while k < span.start
        invariant
            k <= span.start <= text.len(),
            out@ == text@.subrange(0, k as int),
        decreases span.start - k,
    {
        out.push(text[k]);
        k += 1;
    }
    crate::text::extend(&mut out, value);
    let ghost head = out@;
    let mut k: usize = span.end;
    while k < text.len()
        invariant
            span.end <= k <= text.len(),
            out@ == head + text@.subrange(span.end as int, k as int),
        decreases text.len() - k,
    {
        out.push(text[k]);
        k += 1;
    }
    out
}

/// The record of one pass of the scanner over a text: the text before
/// each rewrite and after the last one, and what the evaluator returned,
/// call by call.
pub struct Pass {
    pub texts: Seq<Seq<char>>,
    pub outcomes: Seq<Outcome>,
}

impl Pass {
    /// The body handed to the evaluator at its `i`-th call.
    pub open spec fn body(self, marker: char, i: int) -> Seq<char> {
        span_body(self.texts[i], first_span(marker, self.texts[i]).unwrap())
    }

    /// The pass starts from `input`, rewrites the leftmost span of each
    /// text with the value the evaluator gave for its body, makes at most
    /// `limit` rewrites, and stops at the first failure.
    pub open spec fn follows(self, marker: char, input: Seq<char>, limit: nat) -> bool {
        &&& self.texts.len() >= 1
        &&& self.texts[0] == input
        &&& self.texts.len() - 1 <= limit
        &&& self.texts.len() - 1 <= self.outcomes.len() <= self.texts.len()
        &&& forall|i: int|
            0 <= i < self.outcomes.len() ==> first_span(marker, #[trigger] self.texts[i]) is Some
        &&& forall|i: int|
            0 <= i < self.texts.len() - 1 ==> (#[trigger] self.outcomes[i]) is Ok
                && self.texts[i + 1] == splice(
                self.texts[i],
                first_span(marker, self.texts[i]).unwrap(),
                self.outcomes[i]->Ok_0,
            )
        &&& self.outcomes.len() == self.texts.len() ==> self.outcomes.last() is Err
                && self.outcomes.len() <= limit
    }

    /// The pass went as far as it can go: the evaluator failed, no span is
    /// left, or the limit is reached.
    pub open spec fn complete(self, marker: char, limit: nat) -> bool {
        ||| self.outcomes.len() == self.texts.len()
        ||| first_span(marker, self.texts.last()) is None
        ||| self.texts.len() - 1 == limit
    }

    /// The pass that is left when the first rewrite is taken away.
    pub open spec fn rest(self) -> Pass {
        Pass { texts: self.texts.skip(1), outcomes: self.outcomes.skip(1) }
    }

    /// What a complete pass returns.
    pub open spec fn result(self, marker: char) -> Outcome {
        if self.outcomes.len() == self.texts.len() {
            self.outcomes.last()
        } else if first_span(marker, self.texts.last()) is Some {
            Err(Failure::RewriteLimitExceeded)
        } else {
            Ok(self.texts.last())
        }
    }
}

/// A pass over a text without any span makes no call and returns the text.
pub proof fn lemma_pass_without_span(marker: char, input: Seq<char>, limit: nat, pass: Pass)
    requires
        pass.follows(marker, input, limit),
        !has_span(marker, input),
    ensures
        pass.outcomes.len() == 0,
        pass.result(marker) == Ok::<Seq<char>, Failure>(input),
{
    lemma_first_span_none(marker, input);
    if pass.outcomes.len() > 0 {
        assert(first_span(marker, pass.texts[0]) is Some);
    }
}

/// A complete pass over a text with a span, taken apart at its first call:
/// with no rewrite allowed it fails at once; else the evaluator is called
/// on the body of the first span, its failure is the failure of the pass,
/// and after its value the pass goes on as a complete pass over the
/// rewritten text, with one rewrite less allowed and the same result.
pub proof fn lemma_pass_unfold(marker: char, input: Seq<char>, limit: nat, pass: Pass)
    requires
        pass.follows(marker, input, limit),
        pass.complete(marker, limit),
        first_span(marker, input) is Some,
    ensures
        limit == 0 ==> pass.outcomes.len() == 0 && pass.result(marker) == Err::<
            Seq<char>,
            Failure,
        >(Failure::RewriteLimitExceeded),
        limit > 0 ==> pass.outcomes.len() > 0 && pass.body(marker, 0) == span_body(
            input,
            first_span(marker, input).unwrap(),
        ),
        limit > 0 ==> match pass.outcomes[0] {
            Err(failure) => pass.outcomes.len() == 1 && pass.result(marker) == Err::<
                Seq<char>,
                Failure,
            >(failure),
            Ok(value) => {
                &&& pass.rest().follows(
                    marker,
                    splice(input, first_span(marker, input).unwrap(), value),
                    (limit - 1) as nat,
                )
                &&& pass.rest().complete(marker, (limit - 1) as nat)
                &&& pass.rest().result(marker) == pass.result(marker)
                &&& forall|i: int|
                    0 <= i < pass.rest().outcomes.len() ==> pass.rest().body(marker, i)
                        == pass.body(marker, i + 1) && #[trigger] pass.rest().outcomes[i]
                        == pass.outcomes[i + 1]
            },
        },
{
    if limit > 0 {
        assert(pass.texts.last() == pass.texts[pass.texts.len() - 1]);
        if pass.texts.len() == 1 {
            assert(pass.outcomes.len() == 1);
            assert(pass.outcomes.last() == pass.outcomes[0]);
        } else {
            let rest = pass.rest();
            assert(pass.outcomes[0] is Ok);
            assert(rest.texts.len() == pass.texts.len() - 1);
            assert(rest.outcomes.len() == pass.outcomes.len() - 1);
            assert forall|i: int| 0 <= i < rest.texts.len() implies rest.texts[i] == pass.texts[i
                + 1] by {}
            assert forall|i: int| 0 <= i < rest.outcomes.len() implies first_span(
                marker,
                #[trigger] rest.texts[i],
            ) is Some by {
                assert(first_span(marker, pass.texts[i + 1]) is Some);
            }
            assert forall|i: int| 0 <= i < rest.texts.len() - 1 implies (
            #[trigger] rest.outcomes[i]) is Ok && rest.texts[i + 1] == splice(
                rest.texts[i],
                first_span(marker, rest.texts[i]).unwrap(),
                rest.outcomes[i]->Ok_0,
            ) by {
                assert(pass.outcomes[i + 1] is Ok);
                assert(rest.outcomes[i] == pass.outcomes[i + 1]);
            }
            assert(rest.texts.last() == pass.texts.last());
            if rest.outcomes.len() > 0 {
                assert(rest.outcomes.last() == pass.outcomes.last());
            }
        }
    } else {
        assert(pass.texts.len() == 1);
        if pass.outcomes.len() > 0 {
            assert(pass.outcomes.len() == pass.texts.len());
        }
    }
}

/// The number of closing braces in `text`.
pub open spec fn closing_braces(text: Seq<char>) -> nat
    decreases text.len(),
{
    if text.len() == 0 {
        0
    } else {
        closing_braces(text.drop_last()) + if text.last() == '}' {
            1nat
        } else {
            0nat
        }
    }
}

/// Closing braces are counted part by part.
pub proof fn lemma_closing_braces_concat(a: Seq<char>, b: Seq<char>)
    ensures
        closing_braces(a + b) == closing_braces(a) + closing_braces(b),
    decreases b.len(),
{
    if b.len() == 0 {
        assert(a + b =~= a);
    } else {
        assert((a + b).drop_last() =~= a + b.drop_last());
        lemma_closing_braces_concat(a, b.drop_last());
    }
}

/// A text has no closing brace exactly where it counts none.
pub proof fn lemma_closing_braces_none(text: Seq<char>)
    ensures
        closing_braces(text) == 0 <==> !text.contains('}'),
    decreases text.len(),
{
    if text.len() > 0 {
        let head = text.drop_last();
        lemma_closing_braces_none(head);
        if text.last() == '}' {
            assert(text[text.len() - 1] == '}');
        } else if head.contains('}') {
            let k = choose|k: int| 0 <= k < head.len() && head[k] == '}';
            assert(text[k] == '}');
        } else if text.contains('}') {
            let k = choose|k: int| 0 <= k < text.len() && text[k] == '}';
            assert(head[k] == '}');
        }
    }
}

/// A text holds no more closing braces than characters.
pub proof fn lemma_closing_braces_bound(text: Seq<char>)
    ensures
        closing_braces(text) <= text.len(),
    decreases text.len(),
{
    if text.len() > 0 {
        lemma_closing_braces_bound(text.drop_last());
    }
}

/// The first span of a text is a span of it, and what stands between its
/// braces is a body.
pub proof fn lemma_first_span_body(marker: char, text: Seq<char>)
    requires
        first_span(marker, text) is Some,
    ensures
        is_leftmost_span(
            marker,
            text,
            first_span(marker, text).unwrap().start as int,
            first_span(marker, text).unwrap().end as int,
        ),
        is_body(span_body(text, first_span(marker, text).unwrap())),
{
    let span = first_span(marker, text).unwrap();
    let body = span_body(text, span);
    assert forall|k: int| 0 <= k < body.len() implies body[k] != '}' by {
        assert(body[k] == text[span.start + 2 + k]);
    }
}

/// A rewrite with a value that holds no closing brace takes at least one
/// closing brace out of the text.
pub proof fn lemma_splice_takes_brace(marker: char, text: Seq<char>, span: Span, value: Seq<char>)
    requires
        is_span(marker, text, span.start as int, span.end as int),
        !value.contains('}'),
    ensures
        closing_braces(splice(text, span, value)) < closing_braces(text),
{
    let before = text.subrange(0, span.start as int);
    let inside = text.subrange(span.start as int, span.end - 1);
    let close = text.subrange(span.end - 1, span.end as int);
    let after = text.subrange(span.end as int, text.len() as int);
    assert(text =~= before + inside + close + after);
    assert(close =~= seq!['}']);
    assert(close.drop_last() =~= Seq::<char>::empty());
    assert(closing_braces(Seq::<char>::empty()) == 0);
    assert(close.last() == '}');
    assert(closing_braces(close) == 1);
    lemma_closing_braces_concat(before + inside + close, after);
    lemma_closing_braces_concat(before + inside, close);
    lemma_closing_braces_concat(before, inside);
    lemma_closing_braces_concat(before + value, after);
    lemma_closing_braces_concat(before, value);
    lemma_closing_braces_none(value);
}

/// As long as no value holds a closing brace, every rewrite takes a
/// closing brace out of the text: after `k` rewrites, `k` and the closing
/// braces still there are no more than the closing braces of the input.
pub proof fn lemma_rewrites_take_braces(marker: char, input: Seq<char>, limit: nat, pass: Pass, k: int)
    requires
        pass.follows(marker, input, limit),
        forall|i: int|
            0 <= i < pass.texts.len() - 1 ==> !(#[trigger] pass.outcomes[i])->Ok_0.contains('}'),
        0 <= k < pass.texts.len(),
    ensures
        k + closing_braces(pass.texts[k]) <= closing_braces(input),
    decreases k,
{
    if k > 0 {
        lemma_rewrites_take_braces(marker, input, limit, pass, k - 1);
        let text = pass.texts[k - 1];
        assert(pass.outcomes[k - 1] is Ok);
        assert(first_span(marker, text) is Some);
        let span = first_span(marker, text).unwrap();
        assert(is_leftmost_span(marker, text, span.start as int, span.end as int));
        lemma_splice_takes_brace(marker, text, span, pass.outcomes[k - 1]->Ok_0);
    }
}

/// A pass in which no value holds a closing brace comes to its end by
/// itself, provided it may make as many rewrites as its input has closing
/// braces: it is never cut short by the limit.
pub proof fn lemma_pass_ends_by_itself(marker: char, input: Seq<char>, limit: nat, pass: Pass)
    requires
        pass.follows(marker, input, limit),
        pass.complete(marker, limit),
        forall|i: int|
            0 <= i < pass.texts.len() - 1 ==> !(#[trigger] pass.outcomes[i])->Ok_0.contains('}'),
        closing_braces(input) <= limit,
    ensures
        pass.outcomes.len() == pass.texts.len() || first_span(marker, pass.texts.last()) is None,
{
    let last = pass.texts.last();
    lemma_rewrites_take_braces(marker, input, limit, pass, pass.texts.len() - 1);
    if first_span(marker, last) is Some {
        let span = first_span(marker, last).unwrap();
        assert(is_leftmost_span(marker, last, span.start as int, span.end as int));
        assert(last[span.end - 1] == '}');
        assert(last.contains('}'));
        lemma_closing_braces_none(last);
    }
}

/// A span closes at the first closing brace behind its body, whatever
/// follows: in `before`, the marker, `{`, `body`, `}`, `after`, where
/// `before` holds no marker character, the first span is the one written
/// out, and a rewrite carries `after` over as it is, closing braces
/// included.
pub proof fn lemma_span_closes_at_first_brace(
    marker: char,
    before: Seq<char>,
    body: Seq<char>,
    after: Seq<char>,
    value: Seq<char>,
)
    requires
        !before.contains(marker),
        is_body(body),
        before.len() + body.len() + 3 + after.len() <= usize::MAX,
    ensures
        ({
            let text = before + seq![marker, '{'] + body + seq!['}'] + after;
            let span = Span {
                start: before.len() as usize,
                end: (before.len() + body.len() + 3) as usize,
            };
            &&& first_span(marker, text) == Some(span)
            &&& span_body(text, span) == body
            &&& splice(text, span, value) == before + value + after
        }),
{
    let text = before + seq![marker, '{'] + body + seq!['}'] + after;
    let start = before.len() as int;
    let end = start + body.len() + 3;
    let span = Span { start: start as usize, end: end as usize };
    assert forall|k: int| start + 2 <= k < end - 1 implies text[k] != '}' by {
        assert(text[k] == body[k - start - 2]);
        assert(body.contains(body[k - start - 2]));
    }
    assert(is_span(marker, text, start, end));
    assert forall|s: int, e: int| 0 <= s < start implies !is_span(marker, text, s, e) by {
        assert(text[s] == before[s]);
        assert(before.contains(before[s]));
    }
    lemma_first_span_is(marker, text, span);
    assert(span_body(text, span) =~= body);
    assert(splice(text, span, value) =~= before + value + after);
}

/// The evaluator may return `outcome` when called on `body`.
pub open spec fn gives<F: Fn(String) -> Result<String, SubstituteError>>(
    evaluator: F,
    body: Seq<char>,
    outcome: Outcome,
) -> bool {
    exists|arg: String, out: Result<String, SubstituteError>|
        arg@ == body && call_ensures(evaluator, (arg,), out) && outcome_of(out) == outcome
}

/// `pass` is a complete pass over `input` in which every outcome is one
/// that `evaluator` may return for the body it was called on.
pub open spec fn passes_with<F: Fn(String) -> Result<String, SubstituteError>>(
    marker: char,
    input: Seq<char>,
    evaluator: F,
    limit: nat,
    pass: Pass,
) -> bool {
    &&& pass.follows(marker, input, limit)
    &&& pass.complete(marker, limit)
    &&& forall|i: int|
        0 <= i < pass.outcomes.len() ==> gives(
            evaluator,
            pass.body(marker, i),
            #[trigger] pass.outcomes[i],
        )
}

/// What an evaluator can be called on: a body, which is not empty and
/// holds no closing brace.
pub open spec fn is_body(body: Seq<char>) -> bool {
    body.len() > 0 && !body.contains('}')
}

/// Rewrites the marker spans of `text` one at a time, always the leftmost
/// one of the text as it then stands, with the value `evaluator` returns
/// for its body, until no span is left, the evaluator fails, or
/// `max_rewrites` rewrites were made and a span is still there.
pub fn substitute_expressions_within<F>(
    marker_char: char,
    text: &str,
    evaluator: F,
    max_rewrites: usize,
) -> (result: Result<String, SubstituteError>) where
    F: Fn(String) -> Result<String, SubstituteError>,

    requires
        forall|arg: String| is_body(arg@) ==> call_requires(evaluator, (arg,)),
    ensures
        is_pattern_metachar(marker_char) ==> outcome_of(result) == Err::<Seq<char>, Failure>(
            Failure::MalformedMarkerPattern,
        ),
        !is_pattern_metachar(marker_char) ==> exists|pass: Pass|
            passes_with(marker_char, text@, evaluator, max_rewrites as nat, pass) && outcome_of(
                result,
            ) == pass.result(marker_char),
        !is_pattern_metachar(marker_char) && !has_span(marker_char, text@) ==> outcome_of(result)
            == Ok::<Seq<char>, Failure>(text@),
{
    if !is_marker(marker_char) {
        return Err(SubstituteError::MalformedMarkerPattern);
    }
    let mut current: Vec<char> = chars_of(text);
    let mut rewrites: usize = 0;
    let ghost mut texts: Seq<Seq<char>> = seq![text@];
    let ghost mut outcomes: Seq<Outcome> = Seq::empty();
    loop
        invariant
            !is_pattern_metachar(marker_char),
            forall|arg: String| is_body(arg@) ==> call_requires(evaluator, (arg,)),
            texts.len() == rewrites + 1,
            outcomes.len() == rewrites,
            rewrites <= max_rewrites,
            texts.last() == current@,
            (Pass { texts, outcomes }).follows(marker_char, text@, max_rewrites as nat),
            forall|i: int|
                0 <= i < outcomes.len() ==> gives(
                    evaluator,
                    (Pass { texts, outcomes }).body(marker_char, i),
                    #[trigger] outcomes[i],
                ),
        decreases max_rewrites - rewrites,
    {
        let found = find_span(marker_char, current.as_slice());
        let span = match found {
            None => {
                let out = string_of(current.as_slice());
                proof {
                    let pass = Pass { texts, outcomes };
                    assert(pass.complete(marker_char, max_rewrites as nat));
                    assert(outcome_of(Ok(out)) == pass.result(marker_char));
                }
                return Ok(out);
            },
            Some(span) => span,
        };
        if rewrites == max_rewrites {
            proof {
                let pass = Pass { texts, outcomes };
                assert(pass.complete(marker_char, max_rewrites as nat));
                assert(first_span(marker_char, pass.texts.last()) == Some(span));
                assert(outcome_of(Err(SubstituteError::RewriteLimitExceeded)) == pass.result(
                    marker_char,
                ));
            }
            return Err(SubstituteError::RewriteLimitExceeded);
        }
        let body = string_of_range(current.as_slice(), span.start + 2, span.end - 1);
        proof {
            assert(body@ == span_body(current@, span));
            assert(!body@.contains('}'));
        }
        let evaluated = evaluator(body);
        let ghost before = Pass { texts, outcomes };
        proof {
            outcomes = outcomes.push(outcome_of(evaluated));
        }
        match evaluated {
            Err(e) => {
                proof {
                    let pass = Pass { texts, outcomes };
                    assert(pass.follows(marker_char, text@, max_rewrites as nat));
                    assert(pass.complete(marker_char, max_rewrites as nat));
                    assert forall|i: int| 0 <= i < pass.outcomes.len() implies gives(
                        evaluator,
                        pass.body(marker_char, i),
                        #[trigger] pass.outcomes[i],
                    ) by {
                        if i < before.outcomes.len() {
                            assert(pass.body(marker_char, i) == before.body(marker_char, i));
                            assert(pass.outcomes[i] == before.outcomes[i]);
                        }
                    }
                    assert(outcome_of(Err(e)) == pass.result(marker_char));
                }
                return Err(e);
            },
            Ok(value) => {
                let value_chars = chars_of(value.as_str());
                current = splice_span(current.as_slice(), span, value_chars.as_slice());
                rewrites += 1;
                proof {
                    texts = texts.push(current@);
                    let pass = Pass { texts, outcomes };
                    assert forall|i: int| 0 <= i < pass.outcomes.len() implies gives(
                        evaluator,
                        pass.body(marker_char, i),
                        #[trigger] pass.outcomes[i],
                    ) by {
                        if i < before.outcomes.len() {
                            assert(pass.body(marker_char, i) == before.body(marker_char, i));
                            assert(pass.outcomes[i] == before.outcomes[i]);
                        }
                    }
                    assert(pass.follows(marker_char, text@, max_rewrites as nat));
                }
            },
        }
    }
}

/// Rewrites the marker spans of `text` until no span is left or the
/// evaluator fails, with as many rewrites as a machine can count.
pub fn substitute_expressions<F>(marker_char: char, text: &str, evaluator: F) -> (result: Result<
    String,
    SubstituteError,
>) where F: Fn(String) -> Result<String, SubstituteError>
    requires
        forall|arg: String| is_body(arg@) ==> call_requires(evaluator, (arg,)),
    ensures
        is_pattern_metachar(marker_char) ==> outcome_of(result) == Err::<Seq<char>, Failure>(
            Failure::MalformedMarkerPattern,
        ),
        !is_pattern_metachar(marker_char) ==> exists|pass: Pass|
            passes_with(marker_char, text@, evaluator, usize::MAX as nat, pass) && outcome_of(
                result,
            ) == pass.result(marker_char),
        !is_pattern_metachar(marker_char) && !has_span(marker_char, text@) ==> outcome_of(result)
            == Ok::<Seq<char>, Failure>(text@),
{
    substitute_expressions_within(marker_char, text, evaluator, usize::MAX)
}

} // verus!
