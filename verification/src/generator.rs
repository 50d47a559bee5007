//! The generators behind `!{...}` markers: a random identifier and the
//! time of the call, plain or in a format of the caller's choice.

use crate::error::{outcome_of, Failure, Outcome, SubstituteError};
use crate::text::{chars_of, is_brace_free, string_of_range};
use vstd::prelude::*;

verus! {

/// An instant of UTC time: whole seconds since 1970-01-01T00:00:00Z and
/// the nanoseconds into that second.
#[derive(Clone, Copy, Debug, PartialEq, Eq, Structural)]
pub struct Timestamp {
    pub seconds: i64,
    pub nanos: u32,
}

/// What a generator directive asks for.
#[derive(Debug, PartialEq, Eq)]
pub enum Directive {
    /// `uuid`: a new random identifier.
    Uuid,
    /// `time`: the current time in RFC 3339 form.
    Time,
    /// `time:<format>`: the current time in the given format.
    TimeFormat(String),
    /// Anything else.
    Unsupported,
}

/// The mathematical value of a `Directive`.
pub enum DirectiveKind {
    Uuid,
    Time,
    TimeFormat(Seq<char>),
    Unsupported,
}

impl View for Directive {
    type V = DirectiveKind;

    open spec fn view(&self) -> DirectiveKind {
        match self {
            Directive::Uuid => DirectiveKind::Uuid,
            Directive::Time => DirectiveKind::Time,
            Directive::TimeFormat(f) => DirectiveKind::TimeFormat(f@),
            Directive::Unsupported => DirectiveKind::Unsupported,
        }
    }
}

/// `c` is the keyword character `k` or, where `k` is a lower-case ASCII
/// letter, its upper-case form.
pub open spec fn reads_as_char(c: char, k: char) -> bool {
    c == k || ('a' <= k <= 'z' && c as u32 + 32 == k as u32)
}

/// `text` begins with `keyword`, letter case aside.
pub open spec fn begins_as(text: Seq<char>, keyword: Seq<char>) -> bool {
    &&& keyword.len() <= text.len()
    &&& forall|i: int| 0 <= i < keyword.len() ==> reads_as_char(text[i], keyword[i])
}

/// `text` is `keyword`, letter case aside.
pub open spec fn reads_as(text: Seq<char>, keyword: Seq<char>) -> bool {
    text.len() == keyword.len() && begins_as(text, keyword)
}

/// The directive that a marker body stands for. Keywords are read without
/// regard to letter case; a format is taken as written.
pub open spec fn directive_of(written: Seq<char>) -> DirectiveKind {
    if reads_as(written, seq!['u', 'u', 'i', 'd']) {
        DirectiveKind::Uuid
    } else if reads_as(written, seq!['t', 'i', 'm', 'e']) {
        DirectiveKind::Time
    } else if begins_as(written, seq!['t', 'i', 'm', 'e', ':']) {
        DirectiveKind::TimeFormat(written.skip(5))
    } else {
        DirectiveKind::Unsupported
    }
}

/// A digit of lower-case hexadecimal notation.
pub open spec fn is_lower_hex(c: char) -> bool {
    ('0' <= c <= '9') || ('a' <= c <= 'f')
}

/// `text` is the canonical form of a random (version 4) identifier: 36
/// characters, hyphens after the 8th, 12th, 16th and 20th digit, lower-case
/// hexadecimal digits elsewhere, the version digit `4` and a variant digit
/// of `8`, `9`, `a` or `b`.
pub open spec fn is_random_uuid(text: Seq<char>) -> bool {
    &&& text.len() == 36
    &&& forall|i: int|
        0 <= i < 36 ==> if i == 8 || i == 13 || i == 18 || i == 23 {
            text[i] == '-'
        } else {
            is_lower_hex(text[i])
        }
    &&& text[14] == '4'
    &&& (text[19] == '8' || text[19] == '9' || text[19] == 'a' || text[19] == 'b')
}

/// The RFC 3339 text of an instant, where the calendar can express it.
pub uninterp spec fn rfc3339_text(seconds: i64, nanos: u32) -> Option<Seq<char>>;

/// The text of an instant in a `strftime`-style format, where the calendar
/// can express the instant and the format is valid.
pub uninterp spec fn strftime_text(seconds: i64, nanos: u32, format: Seq<char>) -> Option<
    Seq<char>,
>;

/// Draws an identifier with `uuid::Uuid::new_v4` and writes it with the
/// identifier's `Display`, which is the hyphenated lower-case form. Nothing
/// is claimed of the random digits. The call does not return where the
/// system has no random bytes to give.
#[verifier::external_body]
fn fresh_uuid() -> (id: String)
    ensures
        is_random_uuid(id@),
{
    uuid::Uuid::new_v4().to_string()
}

/// Reads the clock with `chrono::Utc::now`. The instant it returns is one
/// that `chrono` built from a timestamp itself, so it has an RFC 3339 text;
/// nothing is claimed of which instant it is. The call does not return
/// where the clock stands before 1970.
#[verifier::external_body]
fn current_time() -> (now: Timestamp)
    ensures
        rfc3339_text(now.seconds, now.nanos) is Some,
{
    let now = chrono::Utc::now();
    Timestamp { seconds: now.timestamp(), nanos: now.timestamp_subsec_nanos() }
}

/// Renders an instant with `chrono::DateTime::to_rfc3339`; `None` where
/// `chrono::DateTime::from_timestamp` has no date for it. The text is made
/// of digits and of the signs that part them, so it holds no closing
/// brace.
#[verifier::external_body]
fn rfc3339(at: Timestamp) -> (text: Option<String>)
    ensures
        match text {
            Some(t) => rfc3339_text(at.seconds, at.nanos) == Some(t@),
            None => rfc3339_text(at.seconds, at.nanos) is None,
        },
        text matches Some(t) ==> !t@.contains('}'),
{
    match chrono::DateTime::from_timestamp(at.seconds, at.nanos) {
        Some(moment) => Some(moment.to_rfc3339()),
        None => None,
    }
}

/// Renders an instant with `chrono::DateTime::format`, written out with
/// `DelayedFormat::write_to`; `None` where `from_timestamp` has no date for
/// the instant or the format holds an item that `chrono` does not know.
/// The text holds what the format holds beside its items, and for each
/// item digits, signs, or an English name; so it holds a closing brace
/// only where the format holds one.
#[verifier::external_body]
fn strftime(at: Timestamp, format: &str) -> (text: Option<String>)
    ensures
        match text {
            Some(t) => strftime_text(at.seconds, at.nanos, format@) == Some(t@),
            None => strftime_text(at.seconds, at.nanos, format@) is None,
        },
        !format@.contains('}') ==> (text matches Some(t) ==> !t@.contains('}')),
{
    match chrono::DateTime::from_timestamp(at.seconds, at.nanos) {
        Some(moment) => {
            let mut out = String::new();
            match moment.format(format).write_to(&mut out) {
                Ok(()) => Some(out),
                Err(_) => None,
            }
        },
        None => None,
    }
}

/// Tells whether `c` is `k`, letter case aside.
fn same_letter(c: char, k: char) -> (same: bool)
    ensures
        same == reads_as_char(c, k),
{
    c == k || ('a' <= k && k <= 'z' && c as u32 + 32 == k as u32)
}

/// Tells whether `text` begins with `keyword`, letter case aside.
fn has_keyword(text: &[char], keyword: &[char]) -> (found: bool)
    ensures
        found == begins_as(text@, keyword@),
{
    if keyword.len() > text.len() {
        return false;
    }
    let mut i: usize = 0;
    while i < keyword.len()
        invariant
            i <= keyword.len() <= text.len(),
            forall|j: int| 0 <= j < i ==> reads_as_char(text@[j], keyword@[j]),
        decreases keyword.len() - i,
    {
        if !same_letter(text[i], keyword[i]) {
            return false;
        }
        i += 1;
    }
    true
}

/// Reads a marker body as a directive.
pub fn classify_directive(written: &str) -> (directive: Directive)
    ensures
        directive@ == directive_of(written@),
{
    let text = chars_of(written);
    let uuid = vec!['u', 'u', 'i', 'd'];
    let time = vec!['t', 'i', 'm', 'e'];
    let time_with = vec!['t', 'i', 'm', 'e', ':'];
    assert(uuid@ =~= seq!['u', 'u', 'i', 'd']);
    assert(time@ =~= seq!['t', 'i', 'm', 'e']);
    assert(time_with@ =~= seq!['t', 'i', 'm', 'e', ':']);
    if text.len() == 4 && has_keyword(text.as_slice(), uuid.as_slice()) {
        Directive::Uuid
    } else if text.len() == 4 && has_keyword(text.as_slice(), time.as_slice()) {
        Directive::Time
    } else if has_keyword(text.as_slice(), time_with.as_slice()) {
        assert(text@.subrange(5, text@.len() as int) =~= text@.skip(5));
        Directive::TimeFormat(string_of_range(text.as_slice(), 5, text.len()))
    } else {
        Directive::Unsupported
    }
}

/// What a time directive comes to: the text where there is one, else the
/// failure that names the directive.
pub open spec fn rendered(written: Seq<char>, text: Option<Seq<char>>) -> Outcome {
    match text {
        Some(t) => Ok(t),
        None => Err(Failure::UnsupportedGeneratorDirective(written)),
    }
}

/// `outcome` is what the directive `written` may come to at the instant
/// `now`.
pub open spec fn generated_at(written: Seq<char>, now: Timestamp, outcome: Outcome) -> bool {
    match directive_of(written) {
        DirectiveKind::Uuid => outcome matches Ok(t) && is_random_uuid(t),
        DirectiveKind::Time => {
            &&& outcome == rendered(written, rfc3339_text(now.seconds, now.nanos))
            &&& is_brace_free(rfc3339_text(now.seconds, now.nanos))
        },
        DirectiveKind::TimeFormat(format) => {
            &&& outcome == rendered(written, strftime_text(now.seconds, now.nanos, format))
            &&& !format.contains('}') ==> is_brace_free(
                strftime_text(now.seconds, now.nanos, format),
            )
        },
        DirectiveKind::Unsupported => outcome == Err::<Seq<char>, Failure>(
            Failure::UnsupportedGeneratorDirective(written),
        ),
    }
}

/// What a directive without a closing brace comes to holds none either.
pub proof fn lemma_generated_is_brace_free(written: Seq<char>, now: Timestamp, outcome: Outcome)
    requires
        !written.contains('}'),
        generated_at(written, now, outcome),
    ensures
        outcome matches Ok(text) ==> !text.contains('}'),
        outcome matches Err(failure) ==> failure == Failure::UnsupportedGeneratorDirective(written),
{
    match directive_of(written) {
        DirectiveKind::TimeFormat(format) => {
            if format.contains('}') {
                let k = choose|k: int| 0 <= k < format.len() && format[k] == '}';
                assert(written[k + 5] == '}');
            }
        },
        _ => {},
    }
}

/// The directive asks for the time.
pub open spec fn needs_clock(kind: DirectiveKind) -> bool {
    kind is Time || kind is TimeFormat
}

/// `outcome` is what the directive `written` may come to at some instant,
/// which has an RFC 3339 text where the directive asks for the time.
pub open spec fn generated(written: Seq<char>, outcome: Outcome) -> bool {
    exists|now: Timestamp|
        (needs_clock(directive_of(written)) ==> rfc3339_text(now.seconds, now.nanos) is Some)
            && generated_at(written, now, outcome)
}

impl Directive {
    /// Tells whether the directive asks for the time.
    pub fn reads_clock(&self) -> (yes: bool)
        ensures
            yes == needs_clock(self@),
    {
        match self {
            Directive::Time => true,
            Directive::TimeFormat(_) => true,
            _ => false,
        }
    }
}

/// Gives what `directive`, written as `written`, asks for; `now` is the
/// time of the call, which only a directive that asks for the time needs.
fn generate(directive: Directive, written: &str, now: Option<Timestamp>) -> (result: Result<
    String,
    SubstituteError,
>)
    requires
        directive@ == directive_of(written@),
        needs_clock(directive@) ==> now is Some,
    ensures
        forall|at: Timestamp| now == Some(at) || now is None ==> generated_at(
            written@,
            at,
            outcome_of(result),
        ),
{
    let text = match directive {
        Directive::Uuid => Some(fresh_uuid()),
        Directive::Time => rfc3339(now.unwrap()),
        Directive::TimeFormat(format) => strftime(now.unwrap(), format.as_str()),
        Directive::Unsupported => None,
    };
    match text {
        Some(t) => Ok(t),
        None => Err(SubstituteError::UnsupportedGeneratorDirective(written.to_owned())),
    }
}

/// Evaluates a generator directive with `now` as the time of the call.
pub fn evaluate_expression_at(expression: &str, now: Timestamp) -> (result: Result<
    String,
    SubstituteError,
>)
    ensures
        generated_at(expression@, now, outcome_of(result)),
        !expression@.contains('}') ==> (result matches Ok(text) ==> !text@.contains('}')),
{
    let result = generate(classify_directive(expression), expression, Some(now));
    proof {
        if !expression@.contains('}') {
            lemma_generated_is_brace_free(expression@, now, outcome_of(result));
        }
    }
    result
}

/// Evaluates a generator directive: `uuid` gives a new random identifier,
/// `time` the time of the call in RFC 3339 form, `time:<format>` that time
/// in the given format; anything else fails, and so does a format that
/// cannot be rendered.
pub fn evaluate_expression(expression: &str) -> (result: Result<String, SubstituteError>)
    ensures
        generated(expression@, outcome_of(result)),
        directive_of(expression@) is Uuid || directive_of(expression@) is Time ==> result is Ok,
        directive_of(expression@) is Unsupported ==> result is Err,
        !expression@.contains('}') ==> (result matches Ok(text) ==> !text@.contains('}')),
{
    let directive = classify_directive(expression);
    let now = if directive.reads_clock() {
        Some(current_time())
    } else {
        None
    };
    let result = generate(directive, expression, now);
    proof {
        let at = match now {
            Some(at) => at,
            None => Timestamp { seconds: 0, nanos: 0 },
        };
        assert(generated_at(expression@, at, outcome_of(result)));
        if !expression@.contains('}') {
            lemma_generated_is_brace_free(expression@, at, outcome_of(result));
        }
    }
    result
}

} // verus!
