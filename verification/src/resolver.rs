//! The variable resolver: `${name}` placeholders replaced, layer by layer
//! and binding by binding, by plain textual replacement.

use crate::layer::{Bindings, VariableLayer};
use crate::text::{chars_of, occurs_at, occurs_in, replace, replace_all, string_of};
use vstd::prelude::*;

verus! {

/// The placeholder that stands for `name`: `${name}`.
pub open spec fn placeholder(name: Seq<char>) -> Seq<char> {
    seq!['$', '{'] + name + seq!['}']
}

/// `text` after the bindings were applied one after the other, first to
/// last: each replaces every occurrence of its placeholder in the text as
/// the bindings before it left it.
pub open spec fn resolve(text: Seq<char>, bindings: Bindings) -> Seq<char>
    decreases bindings.len(),
{
    if bindings.len() == 0 {
        text
    } else {
        replace_all(
            resolve(text, bindings.drop_last()),
            placeholder(bindings.last().0),
            bindings.last().1,
        )
    }
}

/// No binding of the layer has its placeholder in `text`.
pub open spec fn no_placeholder_of(text: Seq<char>, bindings: Bindings) -> bool {
    forall|i: int|
        0 <= i < bindings.len() ==> !occurs_in(text, placeholder((#[trigger] bindings[i]).0))
}

/// Replacing a pattern that does not occur changes nothing.
pub proof fn lemma_replace_absent(text: Seq<char>, pattern: Seq<char>, replacement: Seq<char>)
    requires
        !occurs_in(text, pattern),
    ensures
        replace_all(text, pattern, replacement) == text,
    decreases text.len(),
{
    if pattern.len() == 0 || text.len() < pattern.len() {
    } else {
        assert(!occurs_at(text, pattern, 0));
        let rest = text.skip(1);
        assert forall|at: int| !occurs_at(rest, pattern, at) by {
            if occurs_at(rest, pattern, at) {
                assert(rest.subrange(at, at + pattern.len()) =~= text.subrange(
                    at + 1,
                    at + 1 + pattern.len(),
                ));
                assert(occurs_at(text, pattern, at + 1));
            }
        }
        lemma_replace_absent(rest, pattern, replacement);
        assert(seq![text[0]] + rest =~= text);
    }
}

/// A text that holds none of the layer's placeholders resolves to itself.
pub proof fn lemma_resolve_without_placeholders(text: Seq<char>, bindings: Bindings)
    requires
        no_placeholder_of(text, bindings),
    ensures
        resolve(text, bindings) == text,
    decreases bindings.len(),
{
    if bindings.len() > 0 {
        let head = bindings.drop_last();
        assert forall|i: int| 0 <= i < head.len() implies !occurs_in(
            text,
            placeholder((#[trigger] head[i]).0),
        ) by {
            assert(head[i] == bindings[i]);
        }
        lemma_resolve_without_placeholders(text, head);
        assert(bindings.last() == bindings[bindings.len() - 1]);
        lemma_replace_absent(text, placeholder(bindings.last().0), bindings.last().1);
    }
}

/// A placeholder ends in a closing brace, so a text without any closing
/// brace holds no placeholder.
pub proof fn lemma_placeholder_needs_brace(text: Seq<char>, name: Seq<char>)
    requires
        !text.contains('}'),
    ensures
        !occurs_in(text, placeholder(name)),
{
    let pattern = placeholder(name);
    assert forall|at: int| !occurs_at(text, pattern, at) by {
        if occurs_at(text, pattern, at) {
            let last = pattern.len() - 1;
            assert(pattern[last] == '}');
            assert(text.subrange(at, at + pattern.len())[last] == text[at + last]);
            assert(text.contains(text[at + last]));
        }
    }
}

/// A marker body, which holds no closing brace, resolves to itself against
/// every layer.
pub proof fn lemma_resolve_body(body: Seq<char>, bindings: Bindings)
    requires
        !body.contains('}'),
    ensures
        resolve(body, bindings) == body,
{
    assert forall|i: int| 0 <= i < bindings.len() implies !occurs_in(
        body,
        placeholder((#[trigger] bindings[i]).0),
    ) by {
        lemma_placeholder_needs_brace(body, bindings[i].0);
    }
    lemma_resolve_without_placeholders(body, bindings);
}

/// Resolving against a layer of one binding is the literal replacement of
/// that binding's placeholder by its value.
pub proof fn lemma_resolve_single(text: Seq<char>, name: Seq<char>, value: Seq<char>)
    ensures
        resolve(text, seq![(name, value)]) == replace_all(text, placeholder(name), value),
{
    let bindings = seq![(name, value)];
    assert(bindings.drop_last() =~= Bindings::empty());
    assert(resolve(text, bindings.drop_last()) == text);
    assert(bindings.last() == (name, value));
}

/// Builds the placeholder of `name`.
pub fn placeholder_of(name: &[char]) -> (pattern: Vec<char>)
    ensures
        pattern@ == placeholder(name@),
{
    let mut pattern: Vec<char> = Vec::new();
    pattern.push('$');
    pattern.push('{');
    assert(pattern@ =~= seq!['$', '{']);
    crate::text::extend(&mut pattern, name);
    pattern.push('}');
    assert(pattern@ =~= placeholder(name@));
    pattern
}

/// Applies the bindings of `vars` to `text`, first to last.
pub fn resolve_chars(text: Vec<char>, vars: &VariableLayer) -> (out: Vec<char>)
    ensures
        out@ == resolve(text@, vars@),
{
    let ghost input = text@;
    let mut current = text;
    let n = vars.len();
    let mut i: usize = 0;
    assert(vars@.take(0) =~= Bindings::empty());
    while i < n
        invariant
            n == vars@.len(),
            i <= n,
            current@ == resolve(input, vars@.take(i as int)),
        decreases n - i,
    {
        let pattern = placeholder_of(vars.name_at(i));
        let next = replace(current.as_slice(), pattern.as_slice(), vars.value_at(i));
        proof {
            let upto = vars@.take(i + 1);
            assert(upto.drop_last() =~= vars@.take(i as int));
            assert(upto.last() == vars@[i as int]);
        }
        current = next;
        i += 1;
    }
    assert(vars@.take(n as int) =~= vars@);
    current
}

/// Replaces every `${name}` of `template` whose name `vars` binds by the
/// value bound to it. A placeholder whose name is not bound stays as it
/// is; a binding without a placeholder changes nothing.
pub fn manual_substitute(template: &str, vars: &VariableLayer) -> (resolved: String)
    ensures
        resolved@ == resolve(template@, vars@),
        resolved@.len() <= usize::MAX,
        no_placeholder_of(template@, vars@) ==> resolved@ == template@,
        vars@.len() == 1 ==> resolved@ == replace_all(
            template@,
            placeholder(vars@[0].0),
            vars@[0].1,
        ),
{
    let out = resolve_chars(chars_of(template), vars);
    proof {
        assert(out@.len() == out.len());
        if no_placeholder_of(template@, vars@) {
            lemma_resolve_without_placeholders(template@, vars@);
        }
        if vars@.len() == 1 {
            assert(vars@ =~= seq![vars@[0]]);
            lemma_resolve_single(template@, vars@[0].0, vars@[0].1);
        }
    }
    string_of(out.as_slice())
}

} // verus!
