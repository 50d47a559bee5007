//! When the order of the bindings does not matter: on tidy templates,
//! resolving binding after binding comes to replacing every placeholder
//! at once, which depends on what is bound and not on the order.

use crate::layer::{names_distinct, Bindings};
use crate::resolver::{placeholder, resolve};
use crate::text::{occurs_at, replace_all};
use vstd::prelude::*;

verus! {

/// A name that holds neither `$` nor `}`.
pub open spec fn is_plain_name(name: Seq<char>) -> bool {
    !name.contains('$') && !name.contains('}')
}

/// Names are distinct and plain, and no value holds a `$`.
pub open spec fn is_plain_layer(bindings: Bindings) -> bool {
    &&& names_distinct(bindings)
    &&& forall|i: int|
        0 <= i < bindings.len() ==> is_plain_name((#[trigger] bindings[i]).0)
            && !bindings[i].1.contains('$')
}

/// `text[at..end]` is the placeholder of a plain name.
pub open spec fn is_placeholder_at(text: Seq<char>, at: int, end: int) -> bool {
    &&& 0 <= at
    &&& at + 3 <= end <= text.len()
    &&& text[at] == '$'
    &&& text[at + 1] == '{'
    &&& text[end - 1] == '}'
    &&& forall|k: int| at + 2 <= k < end - 1 ==> text[k] != '}' && text[k] != '$'
}

/// Every `$` of `text` opens the placeholder of a plain name.
pub open spec fn is_tidy(text: Seq<char>) -> bool {
    forall|at: int|
        0 <= at < text.len() && #[trigger] text[at] == '$' ==> exists|end: int|
            is_placeholder_at(text, at, end)
}

/// The value that the last binding of `name` gives it, if there is one.
pub open spec fn bound_value(bindings: Bindings, name: Seq<char>) -> Option<Seq<char>>
    decreases bindings.len(),
{
    if bindings.len() == 0 {
        None
    } else if bindings.last().0 == name {
        Some(bindings.last().1)
    } else {
        bound_value(bindings.drop_last(), name)
    }
}

/// `text` with every placeholder of a bound name replaced by the value
/// bound to the name, in one sweep from the left.
pub open spec fn resolve_at_once(text: Seq<char>, bindings: Bindings) -> Seq<char>
    decreases text.len(),
{
    if text.len() == 0 {
        text
    } else if exists|end: int| is_placeholder_at(text, 0, end) {
        let end = choose|end: int| is_placeholder_at(text, 0, end);
        let shown = match bound_value(bindings, text.subrange(2, end - 1)) {
            Some(value) => value,
            None => text.take(end),
        };
        shown + resolve_at_once(text.skip(end), bindings)
    } else {
        seq![text[0]] + resolve_at_once(text.skip(1), bindings)
    }
}

/// What is left of a tidy text behind any of its indices is tidy.
pub proof fn lemma_tidy_suffix(text: Seq<char>, from: int)
    requires
        is_tidy(text),
        0 <= from <= text.len(),
    ensures
        is_tidy(text.skip(from)),
{
    let rest = text.skip(from);
    assert forall|at: int| 0 <= at < rest.len() && #[trigger] rest[at] == '$' implies exists|
        end: int,
    | is_placeholder_at(rest, at, end) by {
        let origin = at + from;
        assert(text[origin] == '$');
        let end = choose|end: int| is_placeholder_at(text, origin, end);
        assert forall|k: int| at + 2 <= k < end - from - 1 implies rest[k] != '}' && rest[k]
            != '$' by {
            assert(rest[k] == text[k + from]);
        }
        assert(is_placeholder_at(rest, at, end - from));
    }
}

/// Where the pattern occurs at none of the indices of a prefix, the
/// replacement leaves the prefix as it is.
pub proof fn lemma_replace_keeps_prefix(
    prefix: Seq<char>,
    rest: Seq<char>,
    pattern: Seq<char>,
    replacement: Seq<char>,
)
    requires
        forall|at: int| 0 <= at < prefix.len() ==> !occurs_at(prefix + rest, pattern, at),
    ensures
        replace_all(prefix + rest, pattern, replacement) == prefix + replace_all(
            rest,
            pattern,
            replacement,
        ),
    decreases prefix.len(),
{
    let text = prefix + rest;
    if prefix.len() == 0 {
        assert(text =~= rest);
        assert(prefix + replace_all(rest, pattern, replacement) =~= replace_all(
            rest,
            pattern,
            replacement,
        ));
    } else if pattern.len() == 0 || text.len() < pattern.len() {
    } else {
        assert(!occurs_at(text, pattern, 0));
        let shorter = prefix.skip(1);
        assert(text.skip(1) =~= shorter + rest);
        assert forall|at: int| 0 <= at < shorter.len() implies !occurs_at(
            shorter + rest,
            pattern,
            at,
        ) by {
            if occurs_at(shorter + rest, pattern, at) {
                assert((shorter + rest).subrange(at, at + pattern.len()) =~= text.subrange(
                    at + 1,
                    at + 1 + pattern.len(),
                ));
                assert(occurs_at(text, pattern, at + 1));
            }
        }
        lemma_replace_keeps_prefix(shorter, rest, pattern, replacement);
        assert(seq![text[0]] + (shorter + replace_all(rest, pattern, replacement)) =~= prefix
            + replace_all(rest, pattern, replacement));
    }
}

/// A name that no binding has is bound to no value.
pub proof fn lemma_unbound(bindings: Bindings, name: Seq<char>)
    requires
        forall|i: int| 0 <= i < bindings.len() ==> (#[trigger] bindings[i]).0 != name,
    ensures
        bound_value(bindings, name) is None,
    decreases bindings.len(),
{
    if bindings.len() > 0 {
        let head = bindings.drop_last();
        assert(bindings.last() == bindings[bindings.len() - 1]);
        assert forall|i: int| 0 <= i < head.len() implies (#[trigger] head[i]).0 != name by {
            assert(head[i] == bindings[i]);
        }
        lemma_unbound(head, name);
    }
}

/// Where names are distinct, a name is bound to a value exactly where the
/// layer holds the pair of them.
pub proof fn lemma_bound_value_is_membership(
    bindings: Bindings,
    name: Seq<char>,
    value: Seq<char>,
)
    requires
        names_distinct(bindings),
    ensures
        bound_value(bindings, name) == Some(value) <==> bindings.contains((name, value)),
    decreases bindings.len(),
{
    if bindings.len() > 0 {
        let head = bindings.drop_last();
        let last = bindings.len() - 1;
        assert(bindings.last() == bindings[last]);
        assert forall|i: int, j: int| 0 <= i < j < head.len() implies (#[trigger] head[i]).0 != (
        #[trigger] head[j]).0 by {
            assert(head[i] == bindings[i] && head[j] == bindings[j]);
        }
        lemma_bound_value_is_membership(head, name, value);
        if bindings.contains((name, value)) {
            let i = choose|i: int| 0 <= i < bindings.len() && bindings[i] == (name, value);
            if i < last {
                assert(head[i] == (name, value));
                assert(bindings[i].0 != bindings[last].0);
            }
        }
        if head.contains((name, value)) {
            let i = choose|i: int| 0 <= i < head.len() && head[i] == (name, value);
            assert(bindings[i] == (name, value));
            assert(bindings[i].0 != bindings[last].0);
        }
    }
}

/// Where no value holds a `$`, no bound value does.
pub proof fn lemma_bound_value_has_no_dollar(bindings: Bindings, name: Seq<char>)
    requires
        forall|i: int| 0 <= i < bindings.len() ==> !(#[trigger] bindings[i]).1.contains('$'),
    ensures
        bound_value(bindings, name) matches Some(value) ==> !value.contains('$'),
    decreases bindings.len(),
{
    if bindings.len() > 0 {
        let head = bindings.drop_last();
        assert(bindings.last() == bindings[bindings.len() - 1]);
        assert forall|i: int| 0 <= i < head.len() implies !(#[trigger] head[i]).1.contains(
            '$',
        ) by {
            assert(head[i] == bindings[i]);
        }
        lemma_bound_value_has_no_dollar(head, name);
    }
}

/// A placeholder at the start of a text is the placeholder of the name
/// that stands between its braces.
pub proof fn lemma_placeholder_at_start(text: Seq<char>, end: int)
    requires
        is_placeholder_at(text, 0, end),
    ensures
        text.take(end) == placeholder(text.subrange(2, end - 1)),
        is_plain_name(text.subrange(2, end - 1)),
{
    let name = text.subrange(2, end - 1);
    assert(text.take(end) =~= placeholder(name));
    assert forall|k: int| 0 <= k < name.len() implies name[k] != '$' && name[k] != '}' by {
        assert(name[k] == text[k + 2]);
    }
}

/// The placeholder of one plain name does not begin a text that begins
/// with the placeholder of another.
pub proof fn lemma_placeholders_differ(name: Seq<char>, other: Seq<char>, rest: Seq<char>)
    requires
        !name.contains('}'),
        !other.contains('}'),
        name != other,
    ensures
        !occurs_at(placeholder(other) + rest, placeholder(name), 0),
{
    let pattern = placeholder(name);
    let shown = placeholder(other);
    let text = shown + rest;
    if occurs_at(text, pattern, 0) {
        let window = text.subrange(0, pattern.len() as int);
        assert(window == pattern);
        if pattern.len() < shown.len() {
            let k = pattern.len() - 1;
            assert(window[k] == text[k]);
            assert(pattern[k] == '}');
            assert(text[k] == other[k - 2]);
            assert(other.contains(other[k - 2]));
        } else if pattern.len() > shown.len() {
            let k = shown.len() - 1;
            assert(window[k] == text[k]);
            assert(text[k] == '}');
            assert(pattern[k] == name[k - 2]);
            assert(name.contains(name[k - 2]));
        } else {
            assert forall|k: int| 0 <= k < name.len() implies name[k] == other[k] by {
                assert(window[k + 2] == text[k + 2]);
                assert(pattern[k + 2] == name[k]);
                assert(shown[k + 2] == other[k]);
            }
            assert(name =~= other);
        }
    }
}

/// On a tidy text, one more binding of a new plain name is one more
/// replacement: replacing its placeholder in what the other bindings came
/// to at once gives what all the bindings come to at once.
pub proof fn lemma_one_more_binding(
    text: Seq<char>,
    head: Bindings,
    name: Seq<char>,
    value: Seq<char>,
)
    requires
        is_tidy(text),
        is_plain_layer(head.push((name, value))),
    ensures
        replace_all(resolve_at_once(text, head), placeholder(name), value) == resolve_at_once(
            text,
            head.push((name, value)),
        ),
    decreases text.len(),
{
    let all = head.push((name, value));
    let pattern = placeholder(name);
    assert(all.drop_last() =~= head);
    assert(all.last() == (name, value));
    assert(pattern[0] == '$');
    assert forall|i: int| 0 <= i < head.len() implies (#[trigger] head[i]).0 != name && !head[i].1.contains(
        '$',
    ) by {
        assert(head[i] == all[i]);
        assert(all[head.len() as int].0 == name);
    }
    if text.len() == 0 {
    } else if exists|end: int| is_placeholder_at(text, 0, end) {
        let end = choose|end: int| is_placeholder_at(text, 0, end);
        let written = text.subrange(2, end - 1);
        let rest = text.skip(end);
        let tail = resolve_at_once(rest, head);
        lemma_tidy_suffix(text, end);
        lemma_one_more_binding(rest, head, name, value);
        lemma_placeholder_at_start(text, end);
        lemma_unbound(head, name);
        match bound_value(head, written) {
            Some(shown) => {
                lemma_bound_value_has_no_dollar(head, written);
                assert forall|at: int| 0 <= at < shown.len() implies !occurs_at(
                    shown + tail,
                    pattern,
                    at,
                ) by {
                    if occurs_at(shown + tail, pattern, at) {
                        assert((shown + tail).subrange(at, at + pattern.len())[0] == shown[at]);
                        assert(shown.contains(shown[at]));
                    }
                }
                lemma_replace_keeps_prefix(shown, tail, pattern, value);
            },
            None => {
                let shown = text.take(end);
                if written == name {
                    assert(occurs_at(shown + tail, pattern, 0)) by {
                        assert((shown + tail).subrange(0, pattern.len() as int) =~= shown);
                    }
                    assert((shown + tail).skip(pattern.len() as int) =~= tail);
                } else {
                    assert(all[head.len() as int].0 == name);
                    assert(is_plain_name(name));
                    lemma_placeholders_differ(name, written, tail);
                    assert forall|at: int| 0 <= at < shown.len() implies !occurs_at(
                        shown + tail,
                        pattern,
                        at,
                    ) by {
                        if at > 0 && occurs_at(shown + tail, pattern, at) {
                            assert((shown + tail).subrange(at, at + pattern.len())[0]
                                == shown[at]);
                            assert(shown[at] == text[at]);
                        }
                    }
                    lemma_replace_keeps_prefix(shown, tail, pattern, value);
                }
            },
        }
    } else {
        let rest = text.skip(1);
        let tail = resolve_at_once(rest, head);
        lemma_tidy_suffix(text, 1);
        lemma_one_more_binding(rest, head, name, value);
        let first = seq![text[0]];
        assert forall|at: int| 0 <= at < first.len() implies !occurs_at(
            first + tail,
            pattern,
            at,
        ) by {
            if occurs_at(first + tail, pattern, at) {
                assert((first + tail).subrange(at, at + pattern.len())[0] == text[0]);
            }
        }
        lemma_replace_keeps_prefix(first, tail, pattern, value);
    }
}

/// Without bindings, the sweep leaves the text as it is.
pub proof fn lemma_at_once_without_bindings(text: Seq<char>)
    ensures
        resolve_at_once(text, Bindings::empty()) == text,
    decreases text.len(),
{
    if text.len() == 0 {
    } else if exists|end: int| is_placeholder_at(text, 0, end) {
        let end = choose|end: int| is_placeholder_at(text, 0, end);
        lemma_at_once_without_bindings(text.skip(end));
        assert(text.take(end) + text.skip(end) =~= text);
    } else {
        lemma_at_once_without_bindings(text.skip(1));
        assert(seq![text[0]] + text.skip(1) =~= text);
    }
}

/// On a tidy text and with plain bindings, resolving binding after binding
/// comes to replacing every placeholder at once.
pub proof fn lemma_resolve_is_at_once(text: Seq<char>, bindings: Bindings)
    requires
        is_tidy(text),
        is_plain_layer(bindings),
    ensures
        resolve(text, bindings) == resolve_at_once(text, bindings),
    decreases bindings.len(),
{
    if bindings.len() == 0 {
        assert(bindings =~= Bindings::empty());
        lemma_at_once_without_bindings(text);
    } else {
        let head = bindings.drop_last();
        let last = bindings.last();
        assert(bindings =~= head.push(last));
        assert forall|i: int| 0 <= i < head.len() implies is_plain_name((#[trigger] head[i]).0)
            && !head[i].1.contains('$') by {
            assert(head[i] == bindings[i]);
        }
        assert forall|i: int, j: int| 0 <= i < j < head.len() implies (#[trigger] head[i]).0 != (
        #[trigger] head[j]).0 by {
            assert(head[i] == bindings[i] && head[j] == bindings[j]);
        }
        lemma_resolve_is_at_once(text, head);
        lemma_one_more_binding(text, head, last.0, last.1);
    }
}

/// Two layers of distinct names that hold the same pairs bind every name
/// to the same value.
pub proof fn lemma_same_pairs_same_values(first: Bindings, second: Bindings, name: Seq<char>)
    requires
        names_distinct(first),
        names_distinct(second),
        forall|pair: (Seq<char>, Seq<char>)| first.contains(pair) <==> second.contains(pair),
    ensures
        bound_value(first, name) == bound_value(second, name),
{
    match bound_value(first, name) {
        Some(value) => {
            lemma_bound_value_is_membership(first, name, value);
            lemma_bound_value_is_membership(second, name, value);
        },
        None => {
            match bound_value(second, name) {
                Some(value) => {
                    lemma_bound_value_is_membership(first, name, value);
                    lemma_bound_value_is_membership(second, name, value);
                },
                None => {},
            }
        },
    }
}

/// The sweep depends on what is bound, not on the order of the bindings.
pub proof fn lemma_at_once_by_pairs(text: Seq<char>, first: Bindings, second: Bindings)
    requires
        names_distinct(first),
        names_distinct(second),
        forall|pair: (Seq<char>, Seq<char>)| first.contains(pair) <==> second.contains(pair),
    ensures
        resolve_at_once(text, first) == resolve_at_once(text, second),
    decreases text.len(),
{
    if text.len() == 0 {
    } else if exists|end: int| is_placeholder_at(text, 0, end) {
        let end = choose|end: int| is_placeholder_at(text, 0, end);
        lemma_same_pairs_same_values(first, second, text.subrange(2, end - 1));
        lemma_at_once_by_pairs(text.skip(end), first, second);
    } else {
        lemma_at_once_by_pairs(text.skip(1), first, second);
    }
}

/// The order of the bindings does not matter where nothing can run into
/// anything else: on a template in which every `$` opens the placeholder
/// of a plain name, two layers of plain bindings that hold the same pairs,
/// in whatever order, resolve the template to the same text.
pub proof fn lemma_binding_order_is_immaterial(
    template: Seq<char>,
    first: Bindings,
    second: Bindings,
)
    requires
        is_tidy(template),
        is_plain_layer(first),
        is_plain_layer(second),
        forall|pair: (Seq<char>, Seq<char>)| first.contains(pair) <==> second.contains(pair),
    ensures
        resolve(template, first) == resolve(template, second),
{
    lemma_resolve_is_at_once(template, first);
    lemma_resolve_is_at_once(template, second);
    lemma_at_once_by_pairs(template, first, second);
}

} // verus!
