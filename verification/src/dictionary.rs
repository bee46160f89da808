//! A map from names to values, kept as a list in which no name occurs twice.

use vstd::prelude::*;

verus! {

/// A map from names to values. Its view is a `Map` from the characters of a name to the
/// view of the value bound to it.
pub struct Dictionary<V> {
    entries: Vec<(String, V)>,
}

/// Whether the entry at index `i` is bound to the name `key`.
pub open spec fn entry_named<V>(entries: Seq<(String, V)>, i: int, key: Seq<char>) -> bool {
    0 <= i < entries.len() && entries[i].0@ == key
}

/// Whether no name occurs twice among the entries.
pub open spec fn distinct_names<V>(entries: Seq<(String, V)>) -> bool {
    forall|i: int, j: int|
        0 <= i < j < entries.len() ==> (#[trigger] entries[i]).0@ != (#[trigger] entries[j]).0@
}

/// The map that the entries make: each name is bound to the value of the entry that
/// bears it.
pub closed spec fn bindings<V: View>(entries: Seq<(String, V)>) -> Map<Seq<char>, V::V> {
    Map::new(
        |key: Seq<char>| exists|i: int| entry_named(entries, i, key),
        |key: Seq<char>| entries[choose|i: int| entry_named(entries, i, key)].1@,
    )
}

/// Putting an entry for `key` at index `at`, in the place of the entry that bore `key` or
/// behind all entries when none did, binds `key` to the new value and leaves every
/// other binding as it was.
proof fn lemma_bindings_after_insert<V: View>(
    before: Seq<(String, V)>,
    after: Seq<(String, V)>,
    at: int,
    key: Seq<char>,
    value: V::V,
)
    requires
        distinct_names(before),
        distinct_names(after),
        0 <= at < after.len(),
        after[at].0@ == key,
        after[at].1@ == value,
        at < before.len() ==> after.len() == before.len() && before[at].0@ == key,
        at >= before.len() ==> after.len() == before.len() + 1,
        forall|k: int| 0 <= k < before.len() && k != at ==> after[k] == before[k],
    ensures
        bindings(after) == bindings(before).insert(key, value),
{
    let old_map = bindings(before).insert(key, value);
    let new_map = bindings(after);
    assert forall|other: Seq<char>| #[trigger]
        new_map.contains_key(other) == old_map.contains_key(other) by {
        if other == key {
            assert(entry_named(after, at, other));
        } else if bindings(before).contains_key(other) {
            let k = choose|k: int| entry_named(before, k, other);
            assert(entry_named(after, k, other));
        } else if new_map.contains_key(other) {
            let k = choose|k: int| entry_named(after, k, other);
            assert(entry_named(before, k, other));
        }
    }
    assert forall|other: Seq<char>| #[trigger] new_map.contains_key(other) implies new_map[other]
        == old_map[other] by {
        let k = choose|k: int| entry_named(after, k, other);
        if other == key {
            if k != at {
                if k < at {
                    assert(after[k].0@ != after[at].0@);
                } else {
                    assert(after[at].0@ != after[k].0@);
                }
            }
        } else {
            assert(entry_named(before, k, other));
            let k0 = choose|k0: int| entry_named(before, k0, other);
            if k0 != k {
                if k0 < k {
                    assert(before[k0].0@ != before[k].0@);
                } else {
                    assert(before[k].0@ != before[k0].0@);
                }
            }
        }
    }
    assert(new_map =~= old_map);
}

impl<V> Dictionary<V> {
    #[verifier::type_invariant]
    spec fn names_are_unique(self) -> bool {
        distinct_names(self.entries@)
    }
}

impl<V: View> Dictionary<V> {
    /// The bindings, as a map.
    pub closed spec fn view(&self) -> Map<Seq<char>, V::V> {
        bindings(self.entries@)
    }

    /// A dictionary binds finitely many names.
    pub proof fn lemma_finite(&self)
        ensures
            self@.dom().finite(),
    {
        let names = self.entries@.map_values(|e: (String, V)| e.0@);
        vstd::seq_lib::seq_to_set_is_finite(names);
        assert forall|key: Seq<char>| self@.dom().contains(key) implies names.to_set().contains(
            key,
        ) by {
            let i = choose|i: int| entry_named(self.entries@, i, key);
            assert(names[i] == key);
        }
        vstd::set_lib::lemma_set_subset_finite(names.to_set(), self@.dom());
    }

    /// The dictionary that binds nothing.
    pub fn new() -> (d: Self)
        ensures
            d@ == Map::<Seq<char>, V::V>::empty(),
    {
        let d = Dictionary { entries: Vec::new() };
        assert(d@ =~= Map::<Seq<char>, V::V>::empty());
        d
    }

    /// How many names are bound.
    pub fn len(&self) -> (n: usize)
        ensures
            n == self@.dom().len(),
    {
        proof {
            use_type_invariant(self);
            self.lemma_len();
        }
        self.entries.len()
    }

    proof fn lemma_len(&self)
        requires
            distinct_names(self.entries@),
        ensures
            self@.dom().len() == self.entries@.len(),
            self@.dom().finite(),
    {
        let names = self.entries@.map_values(|e: (String, V)| e.0@);
        assert(names.no_duplicates());
        names.unique_seq_to_set();
        assert(names.to_set() =~= self@.dom()) by {
            assert forall|key: Seq<char>| names.to_set().contains(key) implies self@.dom().contains(
                key,
            ) by {
                let i = choose|i: int| 0 <= i < names.len() && names[i] == key;
                assert(entry_named(self.entries@, i, key));
            }
            assert forall|key: Seq<char>| self@.dom().contains(key) implies names.to_set().contains(
                key,
            ) by {
                let i = choose|i: int| entry_named(self.entries@, i, key);
                assert(names[i] == key);
            }
        }
        vstd::seq_lib::seq_to_set_is_finite(names);
    }

    fn position_of(&self, name: &String) -> (r: Option<usize>)
        ensures
            match r {
                Some(i) => entry_named(self.entries@, i as int, name@),
                None => forall|i: int| !entry_named(self.entries@, i, name@),
            },
    {
        let mut i: usize = 0;
        while i < self.entries.len()
            invariant
                i <= self.entries.len(),
                forall|k: int| 0 <= k < i ==> !entry_named(self.entries@, k, name@),
            decreases self.entries.len() - i,
        {
            if self.entries[i].0 == *name {
                return Some(i);
            }
            i += 1;
        }
        None
    }

    /// Whether `name` is bound.
    pub fn contains(&self, name: &str) -> (r: bool)
        ensures
            r == self@.contains_key(name@),
    {
        let key = name.to_owned();
        self.position_of(&key).is_some()
    }

    /// The value bound to `name`, if there is one.
    pub fn get(&self, name: &str) -> (r: Option<&V>)
        ensures
            match r {
                Some(v) => self@.contains_key(name@) && v@ == self@[name@],
                None => !self@.contains_key(name@),
            },
    {
        proof {
            use_type_invariant(self);
        }
        let key = name.to_owned();
        match self.position_of(&key) {
            Some(i) => {
                proof {
                    let j = choose|j: int| entry_named(self.entries@, j, name@);
                    assert(j == i);
                }
                Some(&self.entries[i].1)
            },
            None => None,
        }
    }

    /// Binds `name` to `value`; a value bound to `name` before is replaced.
    pub fn insert(&mut self, name: String, value: V)
        ensures
            final(self)@ == old(self)@.insert(name@, value@),
    {
        proof {
            use_type_invariant(&*self);
        }
        let ghost before = self.entries@;
        let ghost key = name@;
        let ghost bound = value@;
        let found = self.position_of(&name);
        let mut entries: Vec<(String, V)> = Vec::new();
        std::mem::swap(&mut self.entries, &mut entries);
        let at = match found {
            Some(i) => {
                entries.set(i, (name, value));
                i
            },
            None => {
                entries.push((name, value));
                entries.len() - 1
            },
        };
        proof {
            assert forall|i: int, j: int| 0 <= i < j < entries@.len() implies (
            #[trigger] entries@[i]).0@ != (#[trigger] entries@[j]).0@ by {
                if j == before.len() {
                    assert(!entry_named(before, i, key));
                } else {
                    assert(before[i].0@ != before[j].0@);
                }
            }
            lemma_bindings_after_insert(before, entries@, at as int, key, bound);
        }
        self.entries = entries;
    }
}

} // verus!
