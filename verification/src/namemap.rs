//! A map keyed by names, kept as a list of entries in which no name occurs
//! twice.  Contracts see it as a `Map` from names to the views of its values.
//!
//! It stands where a `HashMap<String, _>` would: vstd's contracts for
//! `HashMap` hold only of keys whose hashing it models, which it does for
//! the integers and not for `String`.

use crate::ast::Name;
use vstd::prelude::*;

verus! {

/// A finite map from names to values.
#[derive(Debug)]
pub struct NameMap<V> {
    entries: Vec<(String, V)>,
}

/// The names of a list of entries, in order.
pub open spec fn entry_names<V>(entries: Seq<(String, V)>) -> Seq<Name> {
    Seq::new(entries.len(), |i: int| entries[i].0@)
}

/// The map that a list of entries with distinct names stands for.
pub open spec fn entries_map<V: View>(entries: Seq<(String, V)>) -> Map<Name, V::V> {
    Map::new(
        |n: Name| entry_names(entries).contains(n),
        |n: Name| entries[entry_names(entries).index_of(n)].1@,
    )
}

impl<V: View> View for NameMap<V> {
    type V = Map<Name, V::V>;

    closed spec fn view(&self) -> Map<Name, V::V> {
        entries_map(self.entries@)
    }
}

impl<V> NameMap<V> {
    #[verifier::type_invariant]
    spec fn distinct(self) -> bool {
        entry_names(self.entries@).no_duplicates()
    }
}

impl<V: View> NameMap<V> {
    /// The empty map.
    pub fn new() -> (r: NameMap<V>)
        ensures
            r@ == Map::<Name, V::V>::empty(),
    {
        let r = NameMap { entries: Vec::new() };
        assert(r@ =~= Map::<Name, V::V>::empty());
        r
    }

    /// Where `name` stands among the entries, if anywhere.
    fn position(&self, name: &String) -> (r: Option<usize>)
        ensures
            match r {
                Some(i) => i < self.entries@.len() && self.entries@[i as int].0@ == name@,
                None => !entry_names(self.entries@).contains(name@),
            },
    {
        let mut i: usize = 0;
        while i < self.entries.len()
            invariant
                i <= self.entries.len(),
                forall|j: int| 0 <= j < i ==> self.entries@[j].0@ != name@,
            decreases self.entries.len() - i,
        {
            if self.entries[i].0 == *name {
                return Some(i);
            }
            i += 1;
        }
        None
    }

    /// The value that `name` is bound to, if any.
    pub fn get(&self, name: &String) -> (r: Option<&V>)
        ensures
            match r {
                Some(v) => self@.contains_key(name@) && v@ == self@[name@],
                None => !self@.contains_key(name@),
            },
    {
        proof {
            use_type_invariant(self);
        }
        match self.position(name) {
            Some(i) => {
                proof {
                    let names = entry_names(self.entries@);
                    assert(names[i as int] == name@);
                    names.index_of_first_ensures(name@);
                    let k = names.index_of(name@);
                    assert(names[k] == name@);
                }
                Some(&self.entries[i].1)
            },
            None => None,
        }
    }

    /// Whether `name` is bound.
    pub fn contains_key(&self, name: &String) -> (r: bool)
        ensures
            r == self@.contains_key(name@),
    {
        match self.position(name) {
            Some(i) => {
                assert(entry_names(self.entries@)[i as int] == name@);
                true
            },
            None => false,
        }
    }

    /// The map with `name` bound to `value`, in place of what it was bound
    /// to before.
    pub fn with(self, name: String, value: V) -> (r: NameMap<V>)
        ensures
            r@ == self@.insert(name@, value@),
    {
        proof {
            use_type_invariant(&self);
        }
        let found = self.position(&name);
        let ghost before = self.entries@;
        let ghost old_names = entry_names(before);
        let mut entries = self.entries;
        match found {
            Some(i) => {
                entries.set(i, (name, value));
                proof {
                    let names = entry_names(entries@);
                    assert(names =~= old_names);
                    assert forall|n: Name| old_names.contains(n) implies (if n == name@ {
                        entries@[names.index_of(n)].1@ == value@
                    } else {
                        entries@[names.index_of(n)].1@ == before[old_names.index_of(n)].1@
                    }) by {
                        let k = old_names.index_of(n);
                        assert(old_names[k] == n);
                        assert(old_names[i as int] == name@);
                    }
                    assert(old_names.contains(name@)) by {
                        assert(old_names[i as int] == name@);
                    }
                    assert(entries_map(entries@) =~= entries_map(before).insert(name@, value@));
                }
            },
            None => {
                entries.push((name, value));
                proof {
                    let names = entry_names(entries@);
                    assert(names =~= old_names.push(name@));
                    assert(names.no_duplicates());
                    assert forall|n: Name| names.contains(n) implies (if n == name@ {
                        entries@[names.index_of(n)].1@ == value@
                    } else {
                        old_names.contains(n) && entries@[names.index_of(n)].1@
                            == before[old_names.index_of(n)].1@
                    }) by {
                        let k = names.index_of(n);
                        assert(names[k] == n);
                        if n != name@ {
                            assert(k < old_names.len());
                            assert(old_names[k] == n);
                            let k2 = old_names.index_of(n);
                            assert(old_names[k2] == n);
                            assert(names[k2] == n);
                        } else {
                            assert(names[before.len() as int] == name@);
                        }
                    }
                    assert forall|n: Name| old_names.contains(n) implies names.contains(n) by {
                        let k = old_names.index_of(n);
                        assert(names[k] == n);
                    }
                    assert(names.contains(name@)) by {
                        assert(names[before.len() as int] == name@);
                    }
                    assert(entries_map(entries@) =~= entries_map(before).insert(name@, value@));
                }
            },
        }
        NameMap { entries }
    }

    /// Binds `name` to `value`, in place of what it was bound to before.
    pub fn insert(&mut self, name: String, value: V)
        ensures
            final(self)@ == old(self)@.insert(name@, value@),
    {
        let mut taken = NameMap::new();
        core::mem::swap(self, &mut taken);
        *self = taken.with(name, value);
    }

    /// The number of names bound.
    pub fn len(&self) -> (r: usize)
        ensures
            self@.dom().finite(),
            r == self@.dom().len(),
    {
        proof {
            use_type_invariant(self);
            let names = entry_names(self.entries@);
            names.unique_seq_to_set();
            assert(self@.dom() =~= names.to_set());
        }
        self.entries.len()
    }
}

} // verus!
