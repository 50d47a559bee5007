//! Variable layers: named values, each name held once, in the order in
//! which the names first came in.

use crate::text::{chars_of, matches_at, string_of};
use vstd::prelude::*;

verus! {

/// One named value of a layer.
struct Binding {
    name: Vec<char>,
    value: Vec<char>,
}

/// A variable layer, as the sequence of its `(name, value)` pairs.
pub type Bindings = Seq<(Seq<char>, Seq<char>)>;

/// No name occurs twice.
pub open spec fn names_distinct(bindings: Bindings) -> bool {
    forall|i: int, j: int|
        0 <= i < j < bindings.len() ==> (#[trigger] bindings[i]).0 != (#[trigger] bindings[j]).0
}

/// The index at which `name` is bound, if it is bound at all.
pub open spec fn index_of(bindings: Bindings, name: Seq<char>) -> Option<int> {
    if exists|i: int| 0 <= i < bindings.len() && (#[trigger] bindings[i]).0 == name {
        Some(choose|i: int| 0 <= i < bindings.len() && (#[trigger] bindings[i]).0 == name)
    } else {
        None
    }
}

/// A mapping from names to values that remembers the order in which its
/// names were first bound.
pub struct VariableLayer {
    entries: Vec<Binding>,
}

impl View for VariableLayer {
    type V = Bindings;

    closed spec fn view(&self) -> Bindings {
        Seq::new(self.entries@.len(), |i: int| (self.entries@[i].name@, self.entries@[i].value@))
    }
}

impl VariableLayer {
    #[verifier::type_invariant]
    spec fn well_formed(self) -> bool {
        names_distinct(self@)
    }

    /// A layer that binds no name.
    pub fn new() -> (layer: VariableLayer)
        ensures
            layer@ == Bindings::empty(),
    {
        let layer = VariableLayer { entries: Vec::new() };
        assert(layer@ =~= Bindings::empty());
        layer
    }

    /// The number of names bound.
    pub fn len(&self) -> (n: usize)
        ensures
            n == self@.len(),
            names_distinct(self@),
    {
        proof {
            use_type_invariant(self);
        }
        self.entries.len()
    }

    /// The position of `name` among the entries.
    fn position(&self, name: &[char]) -> (found: Option<usize>)
        ensures
            names_distinct(self@),
            found matches Some(i) ==> {
                &&& i < self@.len()
                &&& self@[i as int].0 == name@
                &&& index_of(self@, name@) == Some(i as int)
            },
            found is None ==> index_of(self@, name@) is None,
    {
        proof {
            use_type_invariant(self);
        }
        let mut i: usize = 0;
        while i < self.entries.len()
            invariant
                i <= self.entries.len(),
                self.entries@.len() == self@.len(),
                names_distinct(self@),
                forall|j: int| 0 <= j < i ==> (#[trigger] self@[j]).0 != name@,
            decreases self.entries.len() - i,
        {
            let candidate = self.entries[i].name.as_slice();
            assert(self@[i as int].0 == candidate@);
            if candidate.len() == name.len() && matches_at(candidate, name, 0) {
                assert(candidate@.subrange(0, name@.len() as int) =~= candidate@);
                proof {
                    let chosen = choose|k: int|
                        0 <= k < self@.len() && (#[trigger] self@[k]).0 == name@;
                    assert(chosen == i);
                }
                return Some(i);
            }
            proof {
                if candidate@ == name@ {
                    assert(candidate@.subrange(0, name@.len() as int) =~= candidate@);
                }
            }
            i += 1;
        }
        None
    }

    /// The value bound to `name`, if any.
    pub fn get(&self, name: &str) -> (value: Option<String>)
        ensures
            names_distinct(self@),
            match index_of(self@, name@) {
                Some(i) => value matches Some(v) && v@ == self@[i].1,
                None => value is None,
            },
    {
        let name_chars = chars_of(name);
        match self.position(name_chars.as_slice()) {
            Some(i) => Some(string_of(self.entries[i].value.as_slice())),
            None => None,
        }
    }

    /// Binds `name` to `value`. A name bound before keeps its place and
    /// gets the new value, and its old value is returned; a new name goes
    /// to the end.
    pub fn insert(&mut self, name: String, value: String) -> (previous: Option<String>)
        ensures
            names_distinct(final(self)@),
            match index_of(old(self)@, name@) {
                Some(i) => {
                    &&& final(self)@ == old(self)@.update(i, (name@, value@))
                    &&& previous matches Some(p) && p@ == old(self)@[i].1
                },
                None => final(self)@ == old(self)@.push((name@, value@)) && previous is None,
            },
    {
        let name_chars = chars_of(name.as_str());
        let value_chars = chars_of(value.as_str());
        let found = self.position(name_chars.as_slice());
        let ghost before = self@;
        let mut entries: Vec<Binding> = Vec::new();
        std::mem::swap(&mut entries, &mut self.entries);
        let previous = match found {
            Some(i) => {
                let previous = string_of(entries[i].value.as_slice());
                entries.set(i, Binding { name: name_chars, value: value_chars });
                Some(previous)
            },
            None => {
                entries.push(Binding { name: name_chars, value: value_chars });
                None
            },
        };
        proof {
            let after = Seq::new(entries@.len(), |k: int| (entries@[k].name@, entries@[k].value@));
            match found {
                Some(i) => {
                    assert(after =~= before.update(i as int, (name@, value@)));
                },
                None => {
                    assert(after =~= before.push((name@, value@)));
                },
            }
            assert(names_distinct(after));
        }
        self.entries = entries;
        previous
    }

    /// The name at position `i`.
    pub(crate) fn name_at(&self, i: usize) -> (name: &[char])
        requires
            i < self@.len(),
        ensures
            name@ == self@[i as int].0,
    {
        self.entries[i].name.as_slice()
    }

    /// The value at position `i`.
    pub(crate) fn value_at(&self, i: usize) -> (value: &[char])
        requires
            i < self@.len(),
        ensures
            value@ == self@[i as int].1,
    {
        self.entries[i].value.as_slice()
    }
}

} // verus!
