//! The mapping from a package name to the dependency specifications that
//! were found for it.
use vstd::prelude::*;
use crate::constraint::same_text;

verus! {

/// The abstract content of a dependency mapping: entries in insertion order,
/// each a package name and its ordered specification strings.
pub type DependencyEntries = Seq<(Seq<char>, Seq<Seq<char>>)>;

/// No name is the key of two entries.
pub open spec fn keys_unique(s: DependencyEntries) -> bool {
    forall|i: int, j: int| 0 <= i < s.len() && 0 <= j < s.len() && i != j ==> s[i].0 != s[j].0
}

/// Whether some entry has the given name as key.
pub open spec fn has_key(s: DependencyEntries, name: Seq<char>) -> bool {
    exists|i: int| 0 <= i < s.len() && #[trigger] s[i].0 == name
}

/// The mapping after `name -> specs` was inserted; an existing entry for the
/// name keeps its position and takes the new specifications.
pub open spec fn spec_insert(s: DependencyEntries, name: Seq<char>, specs: Seq<Seq<char>>) -> DependencyEntries {
    if has_key(s, name) {
        let i = choose|i: int| 0 <= i < s.len() && #[trigger] s[i].0 == name;
        s.update(i, (name, specs))
    } else {
        s.push((name, specs))
    }
}

spec fn entries_view(e: Seq<(String, Vec<String>)>) -> DependencyEntries {
    Seq::new(e.len(), |i: int| (e[i].0@, e[i].1.deep_view()))
}

/// Mapping from package names to their dependency specification strings.
/// Keys are unique; entries keep their insertion order, which fixes the
/// order in which dependents are examined.
pub struct DependencyMap {
    entries: Vec<(String, Vec<String>)>,
}

impl View for DependencyMap {
    type V = DependencyEntries;

    closed spec fn view(&self) -> DependencyEntries {
        entries_view(self.entries@)
    }
}

impl DependencyMap {
    #[verifier::type_invariant]
    spec fn inv(&self) -> bool {
        keys_unique(self@)
    }

    /// An empty mapping.
    pub fn new() -> (r: Self)
        ensures
            r@ == Seq::<(Seq<char>, Seq<Seq<char>>)>::empty(),
    {
        let r = DependencyMap { entries: Vec::new() };
        assert(r@ =~= Seq::<(Seq<char>, Seq<Seq<char>>)>::empty());
        r
    }

    /// Number of entries; also states that keys are unique.
    pub fn len(&self) -> (r: usize)
        ensures
            r == self@.len(),
            keys_unique(self@),
    {
        proof {
            use_type_invariant(self);
        }
        self.entries.len()
    }

    /// The key of entry `i`.
    pub fn key_at(&self, i: usize) -> (r: &String)
        requires
            i < self@.len(),
        ensures
            r@ == self@[i as int].0,
    {
        &self.entries[i].0
    }

    /// The specifications of entry `i`.
    pub fn specs_at(&self, i: usize) -> (r: &Vec<String>)
        requires
            i < self@.len(),
        ensures
            r.deep_view() == self@[i as int].1,
    {
        &self.entries[i].1
    }

    /// Index of the entry whose key is `name`.
    pub fn position(&self, name: &str) -> (r: Option<usize>)
        ensures
            match r {
                Some(i) => i < self@.len() && self@[i as int].0 == name@,
                None => !has_key(self@, name@),
            },
    {
        let mut i: usize = 0;
        while i < self.entries.len()
            invariant
                0 <= i <= self.entries@.len(),
                self@.len() == self.entries@.len(),
                forall|j: int| 0 <= j < i ==> self@[j].0 != name@,
            decreases self.entries@.len() - i,
        {
            if same_text(self.entries[i].0.as_str(), name) {
                return Some(i);
            }
            i = i + 1;
        }
        None
    }

    /// The specifications recorded for `name`, if any.
    pub fn get(&self, name: &str) -> (r: Option<&Vec<String>>)
        ensures
            match r {
                Some(v) => exists|i: int|
                    0 <= i < self@.len() && self@[i].0 == name@ && #[trigger] self@[i].1
                        == v.deep_view(),
                None => !has_key(self@, name@),
            },
    {
        match self.position(name) {
            Some(i) => {
                assert(self@[i as int].1 == self.entries@[i as int].1.deep_view());
                Some(&self.entries[i].1)
            },
            None => None,
        }
    }

    /// Records the specifications of `name`; a later insert for the same
    /// name replaces the earlier one.
    pub fn insert(&mut self, name: String, specs: Vec<String>)
        ensures
            final(self)@ == spec_insert(old(self)@, name@, specs.deep_view()),
    {
        proof {
            use_type_invariant(&*self);
        }
        let ghost s = self@;
        let pos = self.position(name.as_str());
        let mut taken = DependencyMap::new();
        std::mem::swap(self, &mut taken);
        let DependencyMap { mut entries } = taken;
        let ghost n = name@;
        let ghost v = specs.deep_view();
        match pos {
            Some(i) => {
                proof {
                    let j = choose|j: int| 0 <= j < s.len() && #[trigger] s[j].0 == name@;
                    assert(j == i);
                }
                entries.set(i, (name, specs));
                assert(entries_view(entries@) =~= s.update(i as int, (n, v)));
                assert(keys_unique(entries_view(entries@)));
                let r = DependencyMap { entries };
                assert(r@ =~= s.update(i as int, (n, v)));
                *self = r;
            },
            None => {
                entries.push((name, specs));
                assert(entries_view(entries@) =~= s.push((n, v)));
                assert(keys_unique(entries_view(entries@)));
                let r = DependencyMap { entries };
                assert(r@ =~= s.push((n, v)));
                *self = r;
            },
        }
    }
}

} // verus!
