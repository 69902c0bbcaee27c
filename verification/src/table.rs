//! Tables of values by name. A table keeps its entries in the order in
//! which their names first came, and no name stands in it twice. The
//! mathematics of such tables is stated for names of any kind; the table
//! itself is named by strings.

use crate::text::{index_of, lemma_index_of, lemma_index_of_is, str_equal};
use vstd::prelude::*;
use vstd::string::*;

verus! {

/// The names of the entries, in order.
pub open spec fn names_of<K, V>(entries: Seq<(K, V)>) -> Seq<K> {
    entries.map_values(|e: (K, V)| e.0)
}

/// Where the entry called `name` stands, or `entries.len()` where there is
/// none.
pub open spec fn position<K, V>(entries: Seq<(K, V)>, name: K) -> nat {
    index_of(names_of(entries), name)
}

/// The value that stands under `name`, if any.
pub open spec fn lookup<K, V>(entries: Seq<(K, V)>, name: K) -> Option<V> {
    let i = position(entries, name);
    if i < entries.len() {
        Some(entries[i as int].1)
    } else {
        None
    }
}

/// The entries after `value` was put under `name`: in the place of the entry
/// of that name, or at the end where there was none.
pub open spec fn inserted<K, V>(entries: Seq<(K, V)>, name: K, value: V) -> Seq<(K, V)> {
    let i = position(entries, name);
    if i < entries.len() {
        entries.update(i as int, (name, value))
    } else {
        entries.push((name, value))
    }
}

/// No name stands twice.
pub open spec fn distinct_names<K, V>(entries: Seq<(K, V)>) -> bool {
    names_of(entries).no_duplicates()
}

/// Putting a value under a name keeps the names distinct.
pub proof fn lemma_inserted_keeps_names_distinct<K, V>(
    entries: Seq<(K, V)>,
    name: K,
    value: V,
)
    requires
        distinct_names(entries),
    ensures
        distinct_names(inserted(entries, name, value)),
{
    let names = names_of(entries);
    let i = position(entries, name) as int;
    lemma_index_of(names, name);
    if i < entries.len() {
        assert(names_of(inserted(entries, name, value)) =~= names);
    } else {
        assert(names_of(inserted(entries, name, value)) =~= names.push(name));
    }
}

/// After a value was put under a name, it is the value found there.
pub proof fn lemma_lookup_inserted_same<K, V>(entries: Seq<(K, V)>, name: K, value: V)
    ensures
        lookup(inserted(entries, name, value), name) == Some(value),
{
    let names = names_of(entries);
    let i = position(entries, name) as int;
    let after = inserted(entries, name, value);
    lemma_index_of(names, name);
    if i < entries.len() {
        assert(names_of(after) =~= names);
    } else {
        assert(names_of(after) =~= names.push(name));
        lemma_index_of_is(names_of(after), name, i);
    }
}

/// Putting a value under one name changes nothing under another.
pub proof fn lemma_lookup_inserted_other<K, V>(
    entries: Seq<(K, V)>,
    name: K,
    value: V,
    other: K,
)
    requires
        other != name,
    ensures
        lookup(inserted(entries, name, value), other) == lookup(entries, other),
{
    let names = names_of(entries);
    let i = position(entries, name) as int;
    let j = position(entries, other) as int;
    let after = inserted(entries, name, value);
    lemma_index_of(names, name);
    lemma_index_of(names, other);
    if i < entries.len() {
        assert(names_of(after) =~= names);
    } else {
        assert(names_of(after) =~= names.push(name));
        lemma_index_of_is(names_of(after), other, if j < entries.len() {
            j
        } else {
            j + 1
        });
    }
}

/// Putting a second value under a name leaves the table as if only the
/// second had been put there.
pub proof fn lemma_inserted_twice<K, V>(
    entries: Seq<(K, V)>,
    name: K,
    first: V,
    second: V,
)
    ensures
        inserted(inserted(entries, name, first), name, second) == inserted(entries, name, second),
{
    let names = names_of(entries);
    let i = position(entries, name) as int;
    let once = inserted(entries, name, first);
    lemma_index_of(names, name);
    if i < entries.len() {
        assert(names_of(once) =~= names);
        assert(once.update(i, (name, second)) =~= entries.update(i, (name, second)));
    } else {
        assert(names_of(once) =~= names.push(name));
        lemma_index_of_is(names_of(once), name, i);
        assert(once.update(i, (name, second)) =~= entries.push((name, second)));
    }
}

/// What a vector of entries stands for: each name by its characters.
pub open spec fn entries_view<V>(entries: Seq<(String, V)>) -> Seq<(Seq<char>, V)> {
    entries.map_values(|e: (String, V)| (e.0@, e.1))
}

/// The entries of a table of strings, each value by its characters.
pub open spec fn text_entries(entries: Seq<(Seq<char>, String)>) -> Seq<(Seq<char>, Seq<char>)> {
    entries.map_values(|e: (Seq<char>, String)| (e.0, e.1@))
}

/// Putting a string under a name puts its characters under that name.
pub proof fn lemma_text_entries_inserted(
    entries: Seq<(Seq<char>, String)>,
    name: Seq<char>,
    value: String,
)
    ensures
        text_entries(inserted(entries, name, value)) == inserted(
            text_entries(entries),
            name,
            value@,
        ),
{
    assert(names_of(text_entries(entries)) =~= names_of(entries));
    assert(text_entries(inserted(entries, name, value)) =~= inserted(
        text_entries(entries),
        name,
        value@,
    ));
}

/// The characters found under a name are those of the string found there.
pub proof fn lemma_text_entries_lookup(entries: Seq<(Seq<char>, String)>, name: Seq<char>)
    ensures
        lookup(text_entries(entries), name) == match lookup(entries, name) {
            Some(value) => Some(value@),
            None => None,
        },
{
    assert(names_of(text_entries(entries)) =~= names_of(entries));
}

/// A table of values by name.
#[derive(Debug)]
pub struct NameTable<V> {
    entries: Vec<(String, V)>,
}

impl<V> View for NameTable<V> {
    type V = Seq<(Seq<char>, V)>;

    closed spec fn view(&self) -> Seq<(Seq<char>, V)> {
        entries_view(self.entries@)
    }
}

impl<V> NameTable<V> {
    #[verifier::type_invariant]
    spec fn no_name_twice(&self) -> bool {
        distinct_names(self@)
    }

    /// A table without entries.
    pub fn new() -> (r: Self)
        ensures
            r@ == Seq::<(Seq<char>, V)>::empty(),
    {
        let r = NameTable { entries: Vec::new() };
        assert(r@ =~= Seq::<(Seq<char>, V)>::empty());
        assert(names_of(r@) =~= Seq::<Seq<char>>::empty());
        r
    }

    /// The number of entries.
    pub fn len(&self) -> (n: usize)
        ensures
            n == self@.len(),
            distinct_names(self@),
    {
        proof {
            use_type_invariant(self);
        }
        self.entries.len()
    }

    /// The name of the entry at place `i`.
    pub fn name_at(&self, i: usize) -> (r: &String)
        requires
            i < self@.len(),
        ensures
            r@ == self@[i as int].0,
    {
        &self.entries[i].0
    }

    /// The value of the entry at place `i`.
    pub fn value_at(&self, i: usize) -> (r: &V)
        requires
            i < self@.len(),
        ensures
            *r == self@[i as int].1,
    {
        &self.entries[i].1
    }

    /// The place of the entry called `name`, or the number of entries where
    /// there is none.
    pub fn find(&self, name: &str) -> (i: usize)
        ensures
            i == position(self@, name@),
    {
        let mut i: usize = 0;
        while i < self.entries.len() && !str_equal(self.entries[i].0.as_str(), name)
            invariant
                i <= self.entries.len(),
                forall|j: int| 0 <= j < i ==> names_of(self@)[j] != name@,
            decreases self.entries.len() - i,
        {
            i += 1;
        }
        proof {
            lemma_index_of_is(names_of(self@), name@, i as int);
        }
        i
    }

    /// The value under `name`, if there is one.
    pub fn get(&self, name: &str) -> (r: Option<&V>)
        ensures
            match r {
                Some(v) => lookup(self@, name@) == Some(*v),
                None => lookup(self@, name@) is None,
            },
    {
        let i: usize = self.find(name);
        if i < self.entries.len() {
            Some(&self.entries[i].1)
        } else {
            None
        }
    }

    /// Puts `value` under `name`. An entry of that name keeps its place and
    /// gets the new value; a new name goes to the end.
    pub fn insert(&mut self, name: String, value: V)
        ensures
            final(self)@ == inserted(old(self)@, name@, value),
            distinct_names(final(self)@),
    {
        proof {
            use_type_invariant(&*self);
            lemma_inserted_keeps_names_distinct(self@, name@, value);
        }
        let i: usize = self.find(name.as_str());
        let mut entries: Vec<(String, V)> = Vec::new();
        proof {
            assert(names_of(entries_view(entries@)) =~= Seq::<Seq<char>>::empty());
        }
        core::mem::swap(&mut self.entries, &mut entries);
        if i < entries.len() {
            entries.set(i, (name, value));
        } else {
            entries.push((name, value));
        }
        proof {
            assert(entries_view(entries@) =~= inserted(old(self)@, name@, value));
        }
        self.entries = entries;
    }
}

impl NameTable<String> {
    /// The entries, each value by its characters.
    pub open spec fn texts(&self) -> Seq<(Seq<char>, Seq<char>)> {
        text_entries(self@)
    }

    /// Puts the string `value` under `name`.
    pub fn insert_text(&mut self, name: String, value: String)
        ensures
            final(self).texts() == inserted(old(self).texts(), name@, value@),
    {
        proof {
            lemma_text_entries_inserted(self@, name@, value);
        }
        self.insert(name, value);
    }

    /// The string under `name`, if there is one.
    pub fn get_text(&self, name: &str) -> (r: Option<&String>)
        ensures
            match r {
                Some(v) => lookup(self.texts(), name@) == Some(v@),
                None => lookup(self.texts(), name@) is None,
            },
    {
        proof {
            lemma_text_entries_lookup(self@, name@);
        }
        self.get(name)
    }
}

impl Clone for NameTable<String> {
    /// A table with the same entries in the same order.
    fn clone(&self) -> (r: Self)
        ensures
            r@ == self@,
    {
        proof {
            use_type_invariant(self);
        }
        let mut entries: Vec<(String, String)> = Vec::new();
        let mut i: usize = 0;
        while i < self.entries.len()
            invariant
                i <= self.entries.len(),
                entries@ == self.entries@.take(i as int),
            decreases self.entries.len() - i,
        {
            let name: String = self.entries[i].0.clone();
            let value: String = self.entries[i].1.clone();
            entries.push((name, value));
            proof {
                assert(entries@ =~= self.entries@.take(i + 1));
            }
            i += 1;
        }
        proof {
            assert(self.entries@.take(i as int) == self.entries@);
        }
        NameTable { entries }
    }
}

} // verus!
