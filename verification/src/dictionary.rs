//! The dictionary of field names.
//!
//! Every field name that an encode meets gets a number, its id: the count
//! of names met before it. The metadata lists the names by id, so an id in
//! an object's header is an index into the metadata.

use vstd::prelude::*;
use vstd::hash_map::StringHashMap;

verus! {

/// The index of the first occurrence of `key` in `names`, or the length of
/// `names` where it does not occur.
pub open spec fn field_id(names: Seq<Seq<char>>, key: Seq<char>) -> int
    decreases names.len(),
{
    if names.len() == 0 {
        0
    } else {
        let before = field_id(names.drop_last(), key);
        if before < names.len() - 1 {
            before
        } else if names.last() == key {
            names.len() - 1
        } else {
            names.len() as int
        }
    }
}

/// `key` has an id in `names`.
pub open spec fn has_field(names: Seq<Seq<char>>, key: Seq<char>) -> bool {
    field_id(names, key) < names.len()
}

/// `names` after `key` was met: unchanged where `key` has an id, else with
/// `key` at the end.
pub open spec fn dictionary_add(names: Seq<Seq<char>>, key: Seq<char>) -> Seq<Seq<char>> {
    if has_field(names, key) {
        names
    } else {
        names.push(key)
    }
}

/// No name occurs twice in `names`.
pub open spec fn distinct(names: Seq<Seq<char>>) -> bool {
    forall|i: int, j: int| 0 <= i < j < names.len() ==> names[i] != names[j]
}

/// `shorter` is the beginning of `longer`.
pub open spec fn extends(longer: Seq<Seq<char>>, shorter: Seq<Seq<char>>) -> bool {
    &&& shorter.len() <= longer.len()
    &&& longer.take(shorter.len() as int) == shorter
}

/// An id is an index of the first occurrence, or the length.
pub proof fn lemma_field_id(names: Seq<Seq<char>>, key: Seq<char>)
    ensures
        0 <= field_id(names, key) <= names.len(),
        has_field(names, key) ==> names[field_id(names, key)] == key,
        forall|i: int| 0 <= i < field_id(names, key) ==> names[i] != key,
    decreases names.len(),
{
    if names.len() > 0 {
        lemma_field_id(names.drop_last(), key);
        let before = field_id(names.drop_last(), key);
        assert forall|i: int| 0 <= i < field_id(names, key) implies names[i] != key by {
            if i < names.len() - 1 {
                assert(names.drop_last()[i] == names[i]);
            }
        }
        if before < names.len() - 1 {
            assert(names.drop_last()[before] == names[before]);
        }
    }
}

/// The id of the name at index `i`, where no name before it is the same.
pub proof fn lemma_field_id_at(names: Seq<Seq<char>>, i: int)
    requires
        0 <= i < names.len(),
        forall|j: int| 0 <= j < i ==> names[j] != names[i],
    ensures
        field_id(names, names[i]) == i,
{
    lemma_field_id(names, names[i]);
}

/// A name keeps its id when the dictionary grows.
pub proof fn lemma_field_id_extends(longer: Seq<Seq<char>>, shorter: Seq<Seq<char>>, key: Seq<char>)
    requires
        extends(longer, shorter),
        has_field(shorter, key),
    ensures
        field_id(longer, key) == field_id(shorter, key),
        has_field(longer, key),
{
    lemma_field_id(shorter, key);
    lemma_field_id(longer, key);
    let id = field_id(shorter, key);
    assert(longer.take(shorter.len() as int)[id] == longer[id]);
    let other = field_id(longer, key);
    if other < id {
        assert(longer.take(shorter.len() as int)[other] == longer[other]);
    }
}

/// Adding a name only ever appends, and gives the name an id.
pub proof fn lemma_dictionary_add(names: Seq<Seq<char>>, key: Seq<char>)
    ensures
        extends(dictionary_add(names, key), names),
        has_field(dictionary_add(names, key), key),
        field_id(dictionary_add(names, key), key) == field_id(names, key),
        distinct(names) ==> distinct(dictionary_add(names, key)),
{
    lemma_field_id(names, key);
    let added = dictionary_add(names, key);
    assert(added.take(names.len() as int) =~= names);
    if !has_field(names, key) {
        assert(added.drop_last() =~= names);
        if distinct(names) {
            assert forall|i: int, j: int| 0 <= i < j < added.len() implies added[i] != added[j] by {
                if j < names.len() {
                    assert(added[i] == names[i] && added[j] == names[j]);
                } else {
                    assert(added[i] == names[i]);
                }
            }
        }
    }
}

/// Growth composes.
pub proof fn lemma_extends_transitive(a: Seq<Seq<char>>, b: Seq<Seq<char>>, c: Seq<Seq<char>>)
    requires
        extends(a, b),
        extends(b, c),
    ensures
        extends(a, c),
{
    assert(a.take(c.len() as int) =~= a.take(b.len() as int).take(c.len() as int));
}

/// The field names met so far, each with its id.
pub struct FieldDictionary {
    ids: StringHashMap<usize>,
    names: Vec<String>,
}

impl View for FieldDictionary {
    type V = Seq<Seq<char>>;

    /// The names in the order in which they were first met: the name at
    /// index `i` has the id `i`.
    closed spec fn view(&self) -> Seq<Seq<char>> {
        Seq::new(self.names@.len(), |i: int| self.names@[i]@)
    }
}

impl FieldDictionary {
    /// The map from names to ids and the list of names say the same.
    pub closed spec fn wf(&self) -> bool {
        &&& forall|i: int|
            0 <= i < self.names@.len() ==> self.ids@.contains_key(#[trigger] self.names@[i]@)
                && self.ids@[self.names@[i]@] == i
        &&& forall|key: Seq<char>| #[trigger]
            self.ids@.contains_key(key) ==> self.ids@[key] < self.names@.len()
                && self.names@[self.ids@[key] as int]@ == key
    }

    /// In a well-formed dictionary no name occurs twice.
    pub proof fn lemma_distinct(&self)
        requires
            self.wf(),
        ensures
            distinct(self@),
    {
        assert forall|i: int, j: int| 0 <= i < j < self@.len() implies self@[i] != self@[j] by {
            assert(self.ids@[self.names@[i]@] == i);
            assert(self.ids@[self.names@[j]@] == j);
        }
    }

    /// What the map of ids says of `key` is what `field_id` says.
    proof fn lemma_lookup(&self, key: Seq<char>)
        requires
            self.wf(),
        ensures
            self.ids@.contains_key(key) <==> has_field(self@, key),
            self.ids@.contains_key(key) ==> self.ids@[key] == field_id(self@, key),
    {
        lemma_field_id(self@, key);
        self.lemma_distinct();
        if self.ids@.contains_key(key) {
            let i = self.ids@[key] as int;
            assert(self@[i] == key);
            let id = field_id(self@, key);
            if id < i {
                assert(self@[id] == key);
            }
        } else if has_field(self@, key) {
            let id = field_id(self@, key);
            assert(self.ids@.contains_key(self.names@[id]@));
        }
    }

    /// An empty dictionary.
    pub fn new() -> (dictionary: FieldDictionary)
        ensures
            dictionary.wf(),
            dictionary@ == Seq::<Seq<char>>::empty(),
    {
        let dictionary = FieldDictionary { ids: StringHashMap::new(), names: Vec::new() };
        assert(dictionary@ =~= Seq::<Seq<char>>::empty());
        dictionary
    }

    /// The id of `key`: the one it has, or, where it has none, the next
    /// free one, which it then gets.
    pub fn add(&mut self, key: &str) -> (id: usize)
        requires
            old(self).wf(),
        ensures
            final(self).wf(),
            final(self)@ == dictionary_add(old(self)@, key@),
            id == field_id(old(self)@, key@),
            id == field_id(final(self)@, key@),
    {
        proof {
            self.lemma_lookup(key@);
            lemma_dictionary_add(self@, key@);
        }
        match self.ids.get(key) {
            Some(id) => *id,
            None => {
                let id = self.names.len();
                let owned = key.to_owned();
                let ghost before = *self;
                self.ids.insert(owned.clone(), id);
                self.names.push(owned);
                proof {
                    assert(self@ =~= before@.push(key@));
                    assert forall|i: int| 0 <= i < self.names@.len() implies self.ids@.contains_key(
                        #[trigger] self.names@[i]@,
                    ) && self.ids@[self.names@[i]@] == i by {
                        if i < before.names@.len() {
                            assert(before.names@[i] == self.names@[i]);
                            assert(before.ids@.contains_key(before.names@[i]@));
                        }
                    }
                    assert forall|k: Seq<char>| #[trigger] self.ids@.contains_key(k) implies self.ids@[k]
                        < self.names@.len() && self.names@[self.ids@[k] as int]@ == k by {
                        if k != key@ {
                            assert(before.ids@.contains_key(k));
                        }
                    }
                }
                id
            },
        }
    }

    /// The number of names.
    pub fn len(&self) -> (count: usize)
        ensures
            count == self@.len(),
    {
        self.names.len()
    }

    /// The names with their ids, in the order in which the names were first
    /// met, which is the order of the ids.
    pub fn entries(&self) -> (entries: Vec<(String, usize)>)
        ensures
            entries@.len() == self@.len(),
            forall|i: int| 0 <= i < entries@.len() ==> (#[trigger] entries@[i]).0@ == self@[i] && entries@[i].1 == i,
    {
        let mut entries: Vec<(String, usize)> = Vec::new();
        let mut i: usize = 0;
        while i < self.names.len()
            invariant
                i <= self.names@.len(),
                entries@.len() == i,
                forall|j: int| 0 <= j < i ==> (#[trigger] entries@[j]).0@ == self@[j] && entries@[j].1 == j,
            decreases self.names@.len() - i,
        {
            entries.push((self.names[i].clone(), i));
            i += 1;
        }
        entries
    }

    /// The name with the id `id`.
    pub fn name(&self, id: usize) -> (name: &str)
        requires
            id < self@.len(),
        ensures
            name@ == self@[id as int],
    {
        self.names[id].as_str()
    }
}

} // verus!
