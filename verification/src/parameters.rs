//! The decoded parameters of a log, by name.

use crate::text::{optional_text, text_eq};
use crate::value::{DecodedValue, ValueView};
use vstd::prelude::*;

verus! {

/// The mathematical model of a decoded parameter.
pub struct DecodedParameterView {
    pub value: ValueView,
    pub declared_type: Seq<char>,
    pub indexed: bool,
    pub description: Option<Seq<char>>,
}

/// One decoded parameter of an event.
#[derive(Debug, PartialEq, Eq)]
pub struct DecodedParameter {
    /// The decoded value.
    pub value: DecodedValue,
    /// The declared type, as the signature writes it.
    pub declared_type: String,
    /// Whether the parameter came in a topic.
    pub indexed: bool,
    /// What the signature says of the parameter, if anything.
    pub description: Option<String>,
}

impl View for DecodedParameter {
    type V = DecodedParameterView;

    open spec fn view(&self) -> DecodedParameterView {
        DecodedParameterView {
            value: self.value@,
            declared_type: self.declared_type@,
            indexed: self.indexed,
            description: optional_text(self.description),
        }
    }
}

/// A parameter under its name.
#[derive(Debug, PartialEq, Eq)]
pub struct NamedParameter {
    pub name: String,
    pub parameter: DecodedParameter,
}

/// Whether one of `entries` has the name `name`.
pub open spec fn has_name(entries: Seq<NamedParameter>, name: Seq<char>) -> bool {
    exists|i: int| 0 <= i < entries.len() && (#[trigger] entries[i]).name@ == name
}

/// The index of an entry of `entries` that has the name `name`.
pub open spec fn index_of(entries: Seq<NamedParameter>, name: Seq<char>) -> int {
    choose|i: int| 0 <= i < entries.len() && (#[trigger] entries[i]).name@ == name
}

/// Whether no two of `entries` have the same name.
pub open spec fn distinct_names(entries: Seq<NamedParameter>) -> bool {
    forall|i: int, j: int|
        0 <= i < j < entries.len() ==> (#[trigger] entries[i]).name@ != (#[trigger] entries[j]).name@
}

/// The map from the names of `entries` to their parameters.
pub open spec fn map_of(entries: Seq<NamedParameter>) -> Map<Seq<char>, DecodedParameterView> {
    Map::new(
        |name: Seq<char>| has_name(entries, name),
        |name: Seq<char>| entries[index_of(entries, name)].parameter@,
    )
}

/// The names of the first `count` of `entries`.
pub open spec fn names_of(entries: Seq<NamedParameter>, count: int) -> Set<Seq<char>> {
    Set::new(|name: Seq<char>| exists|i: int| 0 <= i < count && (#[trigger] entries[i]).name@ == name)
}

proof fn lemma_names_count(entries: Seq<NamedParameter>, count: int)
    requires
        distinct_names(entries),
        0 <= count <= entries.len(),
    ensures
        names_of(entries, count).finite(),
        names_of(entries, count).len() == count,
    decreases count,
{
    if count == 0 {
        assert(names_of(entries, 0) =~= Set::<Seq<char>>::empty());
    } else {
        lemma_names_count(entries, count - 1);
        let before = names_of(entries, count - 1);
        let name = entries[count - 1].name@;
        assert(names_of(entries, count) =~= before.insert(name)) by {
            assert forall|n: Seq<char>| names_of(entries, count).contains(n) implies before.insert(
                name,
            ).contains(n) by {
                let i = choose|i: int| 0 <= i < count && (#[trigger] entries[i]).name@ == n;
                if i < count - 1 {
                    assert(before.contains(n));
                }
            }
            assert forall|n: Seq<char>| before.insert(name).contains(n) implies names_of(
                entries,
                count,
            ).contains(n) by {
                if n == name {
                    assert(entries[count - 1].name@ == n);
                } else {
                    let i = choose|i: int| 0 <= i < count - 1 && (#[trigger] entries[i]).name@ == n;
                    assert(entries[i].name@ == n);
                }
            }
        }
        assert(!before.contains(name)) by {
            if before.contains(name) {
                let i = choose|i: int| 0 <= i < count - 1 && (#[trigger] entries[i]).name@ == name;
                assert(entries[i].name@ != entries[count - 1].name@);
            }
        }
    }
}

/// The decoded parameters of one log: a map from each name to one parameter, in
/// the order in which the names came.
#[derive(Debug, PartialEq, Eq)]
pub struct ParameterMap {
    entries: Vec<NamedParameter>,
}

impl View for ParameterMap {
    type V = Map<Seq<char>, DecodedParameterView>;

    closed spec fn view(&self) -> Map<Seq<char>, DecodedParameterView> {
        map_of(self.entries@)
    }
}

impl ParameterMap {
    #[verifier::type_invariant]
    spec fn names_are_distinct(&self) -> bool {
        distinct_names(self.entries@)
    }

    /// A map without parameters.
    pub fn new() -> (out: ParameterMap)
        ensures
            out@ == Map::<Seq<char>, DecodedParameterView>::empty(),
    {
        let out = ParameterMap { entries: Vec::new() };
        assert(out@ =~= Map::<Seq<char>, DecodedParameterView>::empty());
        out
    }

    /// The number of parameters.
    pub fn len(&self) -> (out: usize)
        ensures
            self@.dom().finite(),
            out == self@.len(),
    {
        proof {
            use_type_invariant(self);
            lemma_names_count(self.entries@, self.entries@.len() as int);
            assert(self@.dom() =~= names_of(self.entries@, self.entries@.len() as int));
        }
        self.entries.len()
    }

    /// Whether there is no parameter.
    pub fn is_empty(&self) -> (out: bool)
        ensures
            out == (self@ == Map::<Seq<char>, DecodedParameterView>::empty()),
    {
        proof {
            if self.entries@.len() == 0 {
                assert(self@ =~= Map::<Seq<char>, DecodedParameterView>::empty());
            } else {
                assert(has_name(self.entries@, self.entries@[0].name@));
                assert(self@.contains_key(self.entries@[0].name@));
            }
        }
        self.entries.len() == 0
    }

    /// Finds the entry with the name `name`.
    fn position(&self, name: &str) -> (out: Option<usize>)
        ensures
            match out {
                Some(i) => i < self.entries@.len() && self.entries@[i as int].name@ == name@,
                None => !has_name(self.entries@, name@),
            },
    {
        let mut i: usize = 0;
        while i < self.entries.len()
            invariant
                i <= self.entries@.len(),
                forall|j: int| 0 <= j < i ==> (#[trigger] self.entries@[j]).name@ != name@,
            decreases self.entries.len() - i,
        {
            if text_eq(self.entries[i].name.as_str(), name) {
                return Some(i);
            }
            i += 1;
        }
        None
    }

    /// Whether there is a parameter with the name `name`.
    pub fn contains_key(&self, name: &str) -> (out: bool)
        ensures
            out == self@.contains_key(name@),
    {
        self.position(name).is_some()
    }

    /// The parameter with the name `name`.
    pub fn get(&self, name: &str) -> (out: Option<&DecodedParameter>)
        ensures
            match out {
                Some(parameter) => self@.contains_key(name@) && parameter@ == self@[name@],
                None => !self@.contains_key(name@),
            },
    {
        proof {
            use_type_invariant(self);
        }
        match self.position(name) {
            Some(i) => {
                assert(has_name(self.entries@, name@));
                Some(&self.entries[i].parameter)
            },
            None => None,
        }
    }

    /// Puts `parameter` under `name`, in place of what was there.
    pub fn insert(&mut self, name: String, parameter: DecodedParameter)
        ensures
            final(self)@ == old(self)@.insert(name@, parameter@),
    {
        proof {
            use_type_invariant(&*self);
        }
        let ghost before = self.entries@;
        let ghost key = name@;
        let ghost value = parameter@;
        let found = self.position(name.as_str());
        let mut entries: Vec<NamedParameter> = Vec::new();
        core::mem::swap(&mut self.entries, &mut entries);
        match found {
            Some(i) => {
                entries[i] = NamedParameter { name, parameter };
                proof {
                    let after = entries@;
                    assert forall|n: Seq<char>| has_name(after, n) == has_name(before, n) by {
                        if has_name(after, n) {
                            let j = index_of(after, n);
                            assert(before[j].name@ == n);
                        }
                        if has_name(before, n) {
                            let j = index_of(before, n);
                            assert(after[j].name@ == n);
                        }
                    }
                    assert(has_name(before, key));
                    assert(map_of(after) =~= map_of(before).insert(key, value));
                }
            },
            None => {
                entries.push(NamedParameter { name, parameter });
                proof {
                    let after = entries@;
                    assert(after[before.len() as int].name@ == key);
                    assert forall|n: Seq<char>| has_name(after, n) == (has_name(before, n) || n == key) by {
                        if has_name(after, n) {
                            let j = index_of(after, n);
                            if j < before.len() {
                                assert(before[j].name@ == n);
                            }
                        }
                        if has_name(before, n) {
                            let j = index_of(before, n);
                            assert(after[j].name@ == n);
                        }
                    }
                    assert forall|n: Seq<char>| has_name(before, n) implies after[index_of(
                        after,
                        n,
                    )].parameter@ == before[index_of(before, n)].parameter@ by {
                        let j = index_of(before, n);
                        assert(after[j].name@ == n);
                    }
                    assert(map_of(after) =~= map_of(before).insert(key, value));
                }
            },
        }
        core::mem::swap(&mut self.entries, &mut entries);
    }

    /// The entries, in the order in which their names came.
    pub fn into_entries(self) -> (out: Vec<NamedParameter>)
        ensures
            distinct_names(out@),
            self@ == map_of(out@),
    {
        proof {
            use_type_invariant(&self);
        }
        self.entries
    }
}

} // verus!
