//! A JSON document model for the credential files: objects keep their keys
//! unique; numbers keep the text they were written with.
use vstd::prelude::*;

use crate::text::{chars_of, chars_eq};

verus! {

/// A JSON value.
#[derive(Debug, PartialEq, Eq)]
pub enum JsonValue {
    Null,
    Bool(bool),
    /// A number, as the text that writes it.
    Number(String),
    Str(String),
    Array(Vec<JsonValue>),
    Object(JsonObject),
}

/// The value bound to `key` in an association list; a later binding hides an
/// earlier one.
pub open spec fn lookup_entry<V>(pairs: Seq<(Seq<char>, V)>, key: Seq<char>) -> Option<V>
    decreases pairs.len(),
{
    if pairs.len() == 0 {
        None
    } else if pairs.last().0 == key {
        Some(pairs.last().1)
    } else {
        lookup_entry(pairs.drop_last(), key)
    }
}

/// No key occurs twice.
pub open spec fn distinct_keys<V>(pairs: Seq<(Seq<char>, V)>) -> bool {
    forall|i: int, j: int| 0 <= i < j < pairs.len() ==> #[trigger] pairs[i].0 != #[trigger] pairs[j].0
}

/// In a list without repeated keys, `lookup_entry` finds the one binding of a key.
pub proof fn lemma_lookup_entry<V>(pairs: Seq<(Seq<char>, V)>, key: Seq<char>)
    requires
        distinct_keys(pairs),
    ensures
        forall|i: int| 0 <= i < pairs.len() && #[trigger] pairs[i].0 == key ==> lookup_entry(pairs, key) == Some(pairs[i].1),
        (forall|i: int| 0 <= i < pairs.len() ==> #[trigger] pairs[i].0 != key) <==> lookup_entry(pairs, key) is None,
    decreases pairs.len(),
{
    if pairs.len() > 0 {
        let init = pairs.drop_last();
        assert(distinct_keys(init)) by {
            assert forall|i: int, j: int| 0 <= i < j < init.len() implies #[trigger] init[i].0
                != #[trigger] init[j].0 by {
                assert(init[i] == pairs[i] && init[j] == pairs[j]);
            }
        }
        lemma_lookup_entry(init, key);
        assert forall|i: int| 0 <= i < pairs.len() && #[trigger] pairs[i].0 == key implies lookup_entry(
            pairs,
            key,
        ) == Some(pairs[i].1) by {
            if i < pairs.len() - 1 {
                assert(init[i] == pairs[i]);
                assert(pairs[i].0 != pairs[pairs.len() - 1].0);
            }
        }
        if lookup_entry(pairs, key) is None {
            assert forall|i: int| 0 <= i < pairs.len() implies #[trigger] pairs[i].0 != key by {
                if i < pairs.len() - 1 {
                    assert(init[i] == pairs[i]);
                }
            }
        }
        if forall|i: int| 0 <= i < pairs.len() ==> #[trigger] pairs[i].0 != key {
            assert(pairs.last().0 != key);
            assert forall|i: int| 0 <= i < init.len() implies #[trigger] init[i].0 != key by {
                assert(init[i] == pairs[i]);
            }
        }
    }
}

/// A JSON object: named members, each name once.
#[derive(Debug, PartialEq, Eq)]
pub struct JsonObject {
    entries: Vec<(String, JsonValue)>,
}

impl JsonObject {
    /// The members as (name, value) pairs.
    pub closed spec fn pairs(&self) -> Seq<(Seq<char>, JsonValue)> {
        self.entries@.map_values(|e: (String, JsonValue)| (e.0@, e.1))
    }

    #[verifier::type_invariant]
    closed spec fn unique_names(&self) -> bool {
        distinct_keys(self.pairs())
    }

    /// The member named `key`.
    pub open spec fn get_spec(&self, key: Seq<char>) -> Option<JsonValue> {
        lookup_entry(self.pairs(), key)
    }

    /// Whether the object has no member.
    pub open spec fn is_empty_spec(&self) -> bool {
        forall|k: Seq<char>| #[trigger] self.get_spec(k) is None
    }

    /// An object with no member.
    pub fn new() -> (o: Self)
        ensures
            o.is_empty_spec(),
            o.pairs().len() == 0,
    {
        let o = JsonObject { entries: Vec::new() };
        assert(o.pairs() =~= Seq::<(Seq<char>, JsonValue)>::empty());
        o
    }

    /// The number of members.
    pub fn len(&self) -> (n: usize)
        ensures
            n == self.pairs().len(),
    {
        self.entries.len()
    }

    /// Whether the object has no member.
    pub fn is_empty(&self) -> (b: bool)
        ensures
            b == self.is_empty_spec(),
    {
        proof {
            use_type_invariant(self);
            if self.pairs().len() > 0 {
                let k = self.pairs()[0].0;
                lemma_lookup_entry(self.pairs(), k);
                assert(self.get_spec(k) is Some);
            }
        }
        self.entries.len() == 0
    }

    /// The name of the member at `i`.
    pub fn key_at(&self, i: usize) -> (k: &String)
        requires
            i < self.pairs().len(),
        ensures
            k@ == self.pairs()[i as int].0,
    {
        &self.entries[i].0
    }

    /// The value of the member at `i`.
    pub fn value_at(&self, i: usize) -> (v: &JsonValue)
        requires
            i < self.pairs().len(),
        ensures
            *v == self.pairs()[i as int].1,
            self.get_spec(self.pairs()[i as int].0) == Some(*v),
    {
        proof {
            use_type_invariant(self);
            lemma_lookup_entry(self.pairs(), self.pairs()[i as int].0);
        }
        &self.entries[i].1
    }

    fn find(&self, key: &str) -> (r: Option<usize>)
        ensures
            match r {
                Some(i) => i < self.pairs().len() && self.pairs()[i as int].0 == key@,
                None => forall|j: int| 0 <= j < self.pairs().len() ==> #[trigger] self.pairs()[j].0 != key@,
            },
    {
        let kc = chars_of(key);
        let mut i: usize = 0;
        while i < self.entries.len()
            invariant
                kc@ == key@,
                i <= self.entries@.len(),
                forall|j: int| 0 <= j < i ==> #[trigger] self.pairs()[j].0 != key@,
            decreases self.entries@.len() - i,
        {
            let ec = chars_of(self.entries[i].0.as_str());
            if chars_eq(ec.as_slice(), kc.as_slice()) {
                return Some(i);
            }
            i = i + 1;
        }
        None
    }

    /// The member named `key`, if any.
    pub fn get(&self, key: &str) -> (r: Option<&JsonValue>)
        ensures
            match r {
                Some(v) => self.get_spec(key@) == Some(*v),
                None => self.get_spec(key@) is None,
            },
    {
        proof {
            use_type_invariant(self);
            lemma_lookup_entry(self.pairs(), key@);
        }
        match self.find(key) {
            Some(i) => Some(&self.entries[i].1),
            None => None,
        }
    }

    /// Sets the member named `key` to `value`.
    pub fn insert(&mut self, key: String, value: JsonValue)
        ensures
            final(self).get_spec(key@) == Some(value),
            forall|k: Seq<char>| k != key@ ==> #[trigger] final(self).get_spec(k) == old(self).get_spec(k),
    {
        proof {
            use_type_invariant(&*self);
        }
        let ghost old_pairs = self.pairs();
        let ghost kv = key@;
        let ghost vv = value;
        let found = self.find(key.as_str());
        proof {
            lemma_lookup_entry(old_pairs, kv);
        }
        let mut entries: Vec<(String, JsonValue)> = Vec::new();
        std::mem::swap(&mut entries, &mut self.entries);
        assert(entries@.map_values(|e: (String, JsonValue)| (e.0@, e.1)) == old_pairs);
        match found {
            Some(i) => {
                entries.set(i, (key, value));
                proof {
                    let p = entries@.map_values(|e: (String, JsonValue)| (e.0@, e.1));
                    assert(p =~= old_pairs.update(i as int, (kv, vv)));
                    assert(distinct_keys(p)) by {
                        assert forall|a: int, b: int| 0 <= a < b < p.len() implies #[trigger] p[a].0
                            != #[trigger] p[b].0 by {
                            assert(p[a].0 == old_pairs[a].0 && p[b].0 == old_pairs[b].0);
                        }
                    }
                    lemma_lookup_entry(p, kv);
                    assert(p[i as int].0 == kv);
                    assert forall|k: Seq<char>| k != kv implies lookup_entry(p, k) == lookup_entry(old_pairs, k) by {
                        lemma_lookup_entry(p, k);
                        lemma_lookup_entry(old_pairs, k);
                        if exists|j: int| 0 <= j < p.len() && #[trigger] p[j].0 == k {
                            let j = choose|j: int| 0 <= j < p.len() && #[trigger] p[j].0 == k;
                            assert(old_pairs[j] == p[j]);
                        } else {
                            assert forall|j: int| 0 <= j < old_pairs.len() implies #[trigger] old_pairs[j].0 != k by {
                                if j != i {
                                    assert(old_pairs[j] == p[j]);
                                }
                            }
                        }
                    }
                }
                self.entries = entries;
            },
            None => {
                entries.push((key, value));
                proof {
                    let p = entries@.map_values(|e: (String, JsonValue)| (e.0@, e.1));
                    assert(p =~= old_pairs.push((kv, vv)));
                    assert(distinct_keys(p)) by {
                        assert forall|a: int, b: int| 0 <= a < b < p.len() implies #[trigger] p[a].0
                            != #[trigger] p[b].0 by {
                            assert(p[a] == old_pairs[a]);
                            if b < old_pairs.len() {
                                assert(p[b] == old_pairs[b]);
                            }
                        }
                    }
                    assert(p.drop_last() =~= old_pairs);
                }
                self.entries = entries;
            },
        }
    }

    /// Removes the member named `key`, returning its value.
    pub fn remove(&mut self, key: &str) -> (r: Option<JsonValue>)
        ensures
            r == old(self).get_spec(key@),
            final(self).get_spec(key@) is None,
            forall|k: Seq<char>| k != key@ ==> #[trigger] final(self).get_spec(k) == old(self).get_spec(k),
            final(self).pairs().len() == old(self).pairs().len() - if r is Some {
                1int
            } else {
                0int
            },
    {
        proof {
            use_type_invariant(&*self);
        }
        let ghost old_pairs = self.pairs();
        let ghost kv = key@;
        let found = self.find(key);
        proof {
            lemma_lookup_entry(old_pairs, kv);
        }
        match found {
            None => None,
            Some(i) => {
                let mut entries: Vec<(String, JsonValue)> = Vec::new();
                std::mem::swap(&mut entries, &mut self.entries);
                assert(entries@.map_values(|e: (String, JsonValue)| (e.0@, e.1)) == old_pairs);
                let (_, value) = entries.remove(i);
                proof {
                    let p = entries@.map_values(|e: (String, JsonValue)| (e.0@, e.1));
                    assert(p =~= old_pairs.remove(i as int));
                    assert(distinct_keys(p)) by {
                        assert forall|a: int, b: int| 0 <= a < b < p.len() implies #[trigger] p[a].0
                            != #[trigger] p[b].0 by {
                            if b < i {
                                assert(p[a] == old_pairs[a] && p[b] == old_pairs[b]);
                            } else if a < i {
                                assert(p[a] == old_pairs[a] && p[b] == old_pairs[b + 1]);
                            } else {
                                assert(p[a] == old_pairs[a + 1] && p[b] == old_pairs[b + 1]);
                            }
                        }
                    }
                    lemma_lookup_entry(p, kv);
                    assert forall|j: int| 0 <= j < p.len() implies #[trigger] p[j].0 != kv by {
                        if j < i {
                            assert(p[j] == old_pairs[j]);
                        } else {
                            assert(p[j] == old_pairs[j + 1]);
                        }
                    }
                    assert forall|k: Seq<char>| k != kv implies lookup_entry(p, k) == lookup_entry(old_pairs, k) by {
                        lemma_lookup_entry(p, k);
                        lemma_lookup_entry(old_pairs, k);
                        if exists|j: int| 0 <= j < old_pairs.len() && #[trigger] old_pairs[j].0 == k {
                            let j = choose|j: int| 0 <= j < old_pairs.len() && #[trigger] old_pairs[j].0 == k;
                            if j < i {
                                assert(old_pairs[j] == p[j]);
                            } else {
                                assert(j != i);
                                assert(old_pairs[j] == p[j - 1]);
                            }
                        } else {
                            assert forall|j: int| 0 <= j < p.len() implies #[trigger] p[j].0 != k by {
                                if j < i {
                                    assert(old_pairs[j] == p[j]);
                                } else {
                                    assert(old_pairs[j + 1] == p[j]);
                                }
                            }
                        }
                    }
                }
                self.entries = entries;
                Some(value)
            },
        }
    }

    /// Whether every member is named `name`.
    pub open spec fn has_only(&self, name: Seq<char>) -> bool {
        forall|k: Seq<char>| #[trigger] self.get_spec(k) is Some ==> k == name
    }

    /// Whether every member is named `name` (`keys().all(|k| k == name)`).
    pub fn has_only_member(&self, name: &str) -> (r: bool)
        ensures
            r == self.has_only(name@),
    {
        proof {
            use_type_invariant(self);
        }
        let nc = chars_of(name);
        let mut i: usize = 0;
        while i < self.entries.len()
            invariant
                nc@ == name@,
                distinct_keys(self.pairs()),
                i <= self.entries@.len(),
                forall|j: int| 0 <= j < i ==> #[trigger] self.pairs()[j].0 == name@,
            decreases self.entries@.len() - i,
        {
            let ec = chars_of(self.entries[i].0.as_str());
            if !chars_eq(ec.as_slice(), nc.as_slice()) {
                proof {
                    let k = self.pairs()[i as int].0;
                    lemma_lookup_entry(self.pairs(), k);
                    assert(self.get_spec(k) is Some);
                }
                return false;
            }
            i = i + 1;
        }
        proof {
            assert forall|k: Seq<char>| #[trigger] self.get_spec(k) is Some implies k == name@ by {
                lemma_lookup_entry(self.pairs(), k);
            }
        }
        true
    }

    /// The members, as (name, value) pairs.
    pub fn into_entries(self) -> (r: Vec<(String, JsonValue)>)
        ensures
            r@.map_values(|e: (String, JsonValue)| (e.0@, e.1)) == self.pairs(),
    {
        self.entries
    }
}

} // verus!
