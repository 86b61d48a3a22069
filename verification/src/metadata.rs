//! The metadata of a file: a map from string keys to string values.

use vstd::prelude::*;

use crate::text::str_eq;

verus! {

/// A map from string keys to string values, kept as a list of entries in which
/// no key occurs twice.
#[derive(Debug)]
pub struct Metadata {
    entries: Vec<(String, String)>,
}

/// Whether entry `i` of `entries` has the key `key`.
pub open spec fn has_key_at(entries: Seq<(String, String)>, key: Seq<char>, i: int) -> bool {
    0 <= i < entries.len() && entries[i].0@ == key
}

/// No key occurs twice in `entries`.
pub open spec fn distinct_keys(entries: Seq<(String, String)>) -> bool {
    forall|i: int, j: int|
        0 <= i < j < entries.len() ==> (#[trigger] entries[i]).0@ != (#[trigger] entries[j]).0@
}

/// The map that a list of entries stands for.
pub open spec fn map_of(entries: Seq<(String, String)>) -> Map<Seq<char>, Seq<char>> {
    Map::new(
        |key: Seq<char>| exists|i: int| has_key_at(entries, key, i),
        |key: Seq<char>| entries[choose|i: int| has_key_at(entries, key, i)].1@,
    )
}

/// In a list without repeated keys, the map has for the key of an entry the
/// value of that entry.
pub proof fn lemma_map_of_entry(entries: Seq<(String, String)>, i: int)
    requires
        distinct_keys(entries),
        0 <= i < entries.len(),
    ensures
        map_of(entries).contains_key(entries[i].0@),
        map_of(entries)[entries[i].0@] == entries[i].1@,
{
    let key = entries[i].0@;
    assert(has_key_at(entries, key, i));
    let j = choose|j: int| has_key_at(entries, key, j);
    assert(j == i);
}

/// A key of the map is the key of one of the entries.
pub proof fn lemma_map_of_key(entries: Seq<(String, String)>, key: Seq<char>) -> (i: int)
    requires
        map_of(entries).contains_key(key),
    ensures
        has_key_at(entries, key, i),
{
    choose|i: int| has_key_at(entries, key, i)
}

/// Putting a new value in the place of an entry's value sets the value of
/// the entry's key in the map.
pub proof fn lemma_map_of_update(
    before: Seq<(String, String)>,
    after: Seq<(String, String)>,
    i: int,
    key: Seq<char>,
    value: Seq<char>,
)
    requires
        distinct_keys(before),
        has_key_at(before, key, i),
        after.len() == before.len(),
        after[i].0@ == key,
        after[i].1@ == value,
        forall|k: int| 0 <= k < before.len() && k != i ==> after[k] == before[k],
    ensures
        distinct_keys(after),
        map_of(after) == map_of(before).insert(key, value),
{
    assert forall|a: int, b: int| 0 <= a < b < after.len() implies (#[trigger] after[a]).0@ != (
    #[trigger] after[b]).0@ by {
        assert(before[a].0@ != before[b].0@);
    }
    let want = map_of(before).insert(key, value);
    assert forall|k: Seq<char>| #[trigger] map_of(after).contains_key(k) <==> want.contains_key(
        k,
    ) by {
        if map_of(after).contains_key(k) {
            let j = lemma_map_of_key(after, k);
            assert(has_key_at(before, k, j));
        }
        if map_of(before).contains_key(k) {
            let j = lemma_map_of_key(before, k);
            assert(has_key_at(after, k, j));
        }
        assert(has_key_at(after, key, i));
    }
    assert forall|k: Seq<char>| map_of(after).contains_key(k) implies #[trigger] map_of(after)[k]
        == want[k] by {
        let j = lemma_map_of_key(after, k);
        lemma_map_of_entry(after, j);
        if k != key {
            lemma_map_of_entry(before, j);
        }
    }
    assert(map_of(after) =~= want);
}

/// Adding an entry with a new key adds the key with its value to the map.
pub proof fn lemma_map_of_push(
    before: Seq<(String, String)>,
    after: Seq<(String, String)>,
    key: Seq<char>,
    value: Seq<char>,
)
    requires
        distinct_keys(before),
        forall|i: int| !has_key_at(before, key, i),
        after.len() == before.len() + 1,
        after.last().0@ == key,
        after.last().1@ == value,
        forall|k: int| 0 <= k < before.len() ==> after[k] == before[k],
    ensures
        distinct_keys(after),
        map_of(after) == map_of(before).insert(key, value),
{
    let last = before.len() as int;
    assert forall|a: int, b: int| 0 <= a < b < after.len() implies (#[trigger] after[a]).0@ != (
    #[trigger] after[b]).0@ by {
        if b == last {
            assert(!has_key_at(before, key, a));
        } else {
            assert(before[a].0@ != before[b].0@);
        }
    }
    let want = map_of(before).insert(key, value);
    assert forall|k: Seq<char>| #[trigger] map_of(after).contains_key(k) <==> want.contains_key(
        k,
    ) by {
        if map_of(after).contains_key(k) {
            let j = lemma_map_of_key(after, k);
            if j < last {
                assert(has_key_at(before, k, j));
            }
        }
        if map_of(before).contains_key(k) {
            let j = lemma_map_of_key(before, k);
            assert(has_key_at(after, k, j));
        }
        assert(has_key_at(after, key, last));
    }
    assert forall|k: Seq<char>| map_of(after).contains_key(k) implies #[trigger] map_of(after)[k]
        == want[k] by {
        let j = lemma_map_of_key(after, k);
        lemma_map_of_entry(after, j);
        if j < last {
            assert(has_key_at(before, k, j));
            lemma_map_of_entry(before, j);
        }
    }
    assert(map_of(after) =~= want);
}

/// Lists with the same keys and values, entry by entry, stand for one map.
pub proof fn lemma_map_of_same(a: Seq<(String, String)>, b: Seq<(String, String)>)
    requires
        a.len() == b.len(),
        forall|k: int|
            0 <= k < a.len() ==> (#[trigger] b[k]).0@ == a[k].0@ && b[k].1@ == a[k].1@,
        distinct_keys(a),
    ensures
        distinct_keys(b),
        map_of(b) == map_of(a),
{
    assert forall|i: int, j: int| 0 <= i < j < b.len() implies (#[trigger] b[i]).0@ != (
    #[trigger] b[j]).0@ by {
        assert(a[i].0@ != a[j].0@);
    }
    assert forall|k: Seq<char>| #[trigger] map_of(b).contains_key(k) <==> map_of(a).contains_key(
        k,
    ) by {
        if map_of(b).contains_key(k) {
            let j = lemma_map_of_key(b, k);
            assert(has_key_at(a, k, j));
        }
        if map_of(a).contains_key(k) {
            let j = lemma_map_of_key(a, k);
            assert(has_key_at(b, k, j));
        }
    }
    assert forall|k: Seq<char>| map_of(b).contains_key(k) implies #[trigger] map_of(b)[k]
        == map_of(a)[k] by {
        let j = lemma_map_of_key(b, k);
        lemma_map_of_entry(b, j);
        lemma_map_of_entry(a, j);
    }
    assert(map_of(b) =~= map_of(a));
}

/// A list without repeated keys stands for a map with as many keys as the
/// list has entries.
pub proof fn lemma_map_of_len(entries: Seq<(String, String)>)
    requires
        distinct_keys(entries),
    ensures
        map_of(entries).dom().finite(),
        map_of(entries).dom().len() == entries.len(),
    decreases entries.len(),
{
    if entries.len() == 0 {
        assert(map_of(entries).dom() =~= Set::<Seq<char>>::empty());
    } else {
        let head = entries.drop_last();
        let key = entries.last().0@;
        assert(distinct_keys(head)) by {
            assert forall|i: int, j: int| 0 <= i < j < head.len() implies (#[trigger] head[i]).0@
                != (#[trigger] head[j]).0@ by {
                assert(entries[i].0@ != entries[j].0@);
            }
        }
        lemma_map_of_len(head);
        assert forall|i: int| !has_key_at(head, key, i) by {
            if has_key_at(head, key, i) {
                assert(entries[i].0@ != entries[entries.len() - 1].0@);
            }
        }
        lemma_map_of_push(head, entries, key, entries.last().1@);
        assert(map_of(entries).dom() =~= map_of(head).dom().insert(key));
    }
}

impl View for Metadata {
    type V = Map<Seq<char>, Seq<char>>;

    closed spec fn view(&self) -> Map<Seq<char>, Seq<char>> {
        map_of(self.entries@)
    }
}

impl Metadata {
    #[verifier::type_invariant]
    spec fn keys_are_distinct(self) -> bool {
        distinct_keys(self.entries@)
    }

    /// The empty map.
    pub fn new() -> (metadata: Metadata)
        ensures
            metadata@ == Map::<Seq<char>, Seq<char>>::empty(),
    {
        let metadata = Metadata { entries: Vec::new() };
        assert(metadata@ =~= Map::<Seq<char>, Seq<char>>::empty());
        metadata
    }

    /// The index of the entry with the key `key`, if there is one.
    fn position(&self, key: &str) -> (found: Option<usize>)
        ensures
            match found {
                Some(i) => has_key_at(self.entries@, key@, i as int),
                None => forall|i: int| !has_key_at(self.entries@, key@, i),
            },
    {
        let mut i: usize = 0;
        while i < self.entries.len()
            invariant
                i <= self.entries.len(),
                forall|k: int| 0 <= k < i ==> !has_key_at(self.entries@, key@, k),
            decreases self.entries.len() - i,
        {
            if str_eq(self.entries[i].0.as_str(), key) {
                return Some(i);
            }
            i = i + 1;
        }
        None
    }

    /// Whether the map has a value for `key`.
    pub fn contains_key(&self, key: &str) -> (found: bool)
        ensures
            found == self@.contains_key(key@),
    {
        self.position(key).is_some()
    }

    /// The value that the map has for `key`.
    pub fn get(&self, key: &str) -> (value: Option<&String>)
        ensures
            match value {
                Some(v) => self@.contains_key(key@) && v@ == self@[key@],
                None => !self@.contains_key(key@),
            },
    {
        match self.position(key) {
            Some(i) => {
                proof {
                    use_type_invariant(self);
                    lemma_map_of_entry(self.entries@, i as int);
                }
                Some(&self.entries[i].1)
            },
            None => None,
        }
    }

    /// Sets the value for `key`, in place of the value it had, if any.
    pub fn insert(&mut self, key: String, value: String)
        ensures
            final(self)@ == old(self)@.insert(key@, value@),
    {
        proof {
            use_type_invariant(&*self);
        }
        let ghost before = self.entries@;
        let found = self.position(key.as_str());
        let mut entries: Vec<(String, String)> = Vec::new();
        std::mem::swap(&mut self.entries, &mut entries);
        match found {
            Some(i) => {
                entries.set(i, (key, value));
                proof {
                    lemma_map_of_update(before, entries@, i as int, key@, value@);
                }
            },
            None => {
                entries.push((key, value));
                proof {
                    lemma_map_of_push(before, entries@, key@, value@);
                }
            },
        }
        self.entries = entries;
    }

    /// The number of keys.
    pub fn len(&self) -> (n: usize)
        ensures
            self@.dom().finite(),
            n == self@.dom().len(),
    {
        proof {
            use_type_invariant(self);
            lemma_map_of_len(self.entries@);
        }
        self.entries.len()
    }

    /// A copy of all entries, one for each key.
    pub fn entries(&self) -> (list: Vec<(String, String)>)
        ensures
            distinct_keys(list@),
            map_of(list@) == self@,
    {
        let mut list: Vec<(String, String)> = Vec::new();
        let mut i: usize = 0;
        while i < self.entries.len()
            invariant
                i <= self.entries.len(),
                list@.len() == i,
                forall|k: int|
                    0 <= k < i ==> (#[trigger] list@[k]).0@ == self.entries@[k].0@ && list@[k].1@
                        == self.entries@[k].1@,
            decreases self.entries.len() - i,
        {
            list.push((self.entries[i].0.clone(), self.entries[i].1.clone()));
            i = i + 1;
        }
        proof {
            use_type_invariant(self);
            lemma_map_of_same(self.entries@, list@);
        }
        list
    }

}

impl Clone for Metadata {
    /// A copy of the map.
    fn clone(&self) -> (copy: Metadata)
        ensures
            copy@ == self@,
    {
        Metadata { entries: self.entries() }
    }
}

} // verus!
