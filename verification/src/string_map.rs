//! An ordered map from strings to strings, kept sorted by the byte order of
//! its keys (the order in which `BTreeMap<String, String>` walks its entries).
use vstd::prelude::*;
use vstd::string::StringSliceAdditionalSpecFns;
use vstd::utf8::*;

use crate::text::{bytes_lt, compare_bytes, copy_string, lemma_bytes_lt_total, lemma_bytes_lt_trans, ByteOrder};

verus! {

broadcast use vstd::utf8::encode_utf8_decode_utf8;

/// The value bound to `key` in an association list; a later binding hides an
/// earlier one.
pub open spec fn lookup(pairs: Seq<(Seq<char>, Seq<char>)>, key: Seq<char>) -> Option<Seq<char>>
    decreases pairs.len(),
{
    if pairs.len() == 0 {
        None
    } else if pairs.last().0 == key {
        Some(pairs.last().1)
    } else {
        lookup(pairs.drop_last(), key)
    }
}

/// Keys strictly increasing in byte order.
pub open spec fn keys_sorted(pairs: Seq<(Seq<char>, Seq<char>)>) -> bool {
    forall|i: int, j: int|
        0 <= i < j < pairs.len() ==> bytes_lt(
            encode_utf8(#[trigger] pairs[i].0),
            encode_utf8(#[trigger] pairs[j].0),
        )
}

/// In a list without repeated keys, `lookup` finds the one binding of a key.
pub proof fn lemma_lookup_unique(pairs: Seq<(Seq<char>, Seq<char>)>, key: Seq<char>)
    requires
        keys_sorted(pairs),
    ensures
        forall|i: int| 0 <= i < pairs.len() && #[trigger] pairs[i].0 == key ==> lookup(pairs, key) == Some(pairs[i].1),
        (forall|i: int| 0 <= i < pairs.len() ==> #[trigger] pairs[i].0 != key) ==> lookup(pairs, key) is None,
    decreases pairs.len(),
{
    if pairs.len() > 0 {
        let init = pairs.drop_last();
        assert(keys_sorted(init)) by {
            assert forall|i: int, j: int| 0 <= i < j < init.len() implies bytes_lt(
                encode_utf8(#[trigger] init[i].0),
                encode_utf8(#[trigger] init[j].0),
            ) by {
                assert(init[i] == pairs[i] && init[j] == pairs[j]);
            }
        }
        lemma_lookup_unique(init, key);
        assert forall|i: int| 0 <= i < pairs.len() && #[trigger] pairs[i].0 == key implies lookup(
            pairs,
            key,
        ) == Some(pairs[i].1) by {
            if i < pairs.len() - 1 {
                assert(init[i] == pairs[i]);
                let last = pairs.len() - 1;
                assert(bytes_lt(encode_utf8(pairs[i].0), encode_utf8(pairs[last].0)));
                lemma_bytes_lt_total(encode_utf8(pairs[i].0), encode_utf8(pairs[i].0));
                assert(pairs.last().0 != key);
            }
        }
        if forall|i: int| 0 <= i < pairs.len() ==> #[trigger] pairs[i].0 != key {
            assert(pairs.last().0 != key);
            assert forall|i: int| 0 <= i < init.len() implies #[trigger] init[i].0 != key by {
                assert(init[i] == pairs[i]);
            }
        }
    }
}

/// An ordered string-to-string map.
#[derive(Debug, PartialEq, Eq)]
pub struct StringMap {
    entries: Vec<(String, String)>,
}

impl StringMap {
    /// The entries as (key, value) pairs, in key order.
    pub closed spec fn pairs(&self) -> Seq<(Seq<char>, Seq<char>)> {
        self.entries@.map_values(|e: (String, String)| (e.0@, e.1@))
    }

    #[verifier::type_invariant]
    closed spec fn sorted(&self) -> bool {
        keys_sorted(self.pairs())
    }

    /// The value bound to `key`.
    pub open spec fn get_spec(&self, key: Seq<char>) -> Option<Seq<char>> {
        lookup(self.pairs(), key)
    }

    /// An empty map.
    pub fn new() -> (m: Self)
        ensures
            m.pairs() == Seq::<(Seq<char>, Seq<char>)>::empty(),
            keys_sorted(m.pairs()),
    {
        let m = StringMap { entries: Vec::new() };
        assert(m.pairs() =~= Seq::<(Seq<char>, Seq<char>)>::empty());
        m
    }

    /// The number of entries.
    pub fn len(&self) -> (n: usize)
        ensures
            n == self.pairs().len(),
            keys_sorted(self.pairs()),
    {
        proof {
            use_type_invariant(self);
        }
        self.entries.len()
    }

    /// Whether the map has no entry.
    pub fn is_empty(&self) -> (b: bool)
        ensures
            b == (self.pairs().len() == 0),
    {
        self.entries.len() == 0
    }

    /// The key of the entry at `i`, in key order.
    pub fn key_at(&self, i: usize) -> (k: &String)
        requires
            i < self.pairs().len(),
        ensures
            k@ == self.pairs()[i as int].0,
    {
        &self.entries[i].0
    }

    /// The value of the entry at `i`, in key order.
    pub fn value_at(&self, i: usize) -> (v: &String)
        requires
            i < self.pairs().len(),
        ensures
            v@ == self.pairs()[i as int].1,
    {
        &self.entries[i].1
    }

    /// The value bound to `key`, if any (`BTreeMap::get`).
    pub fn get(&self, key: &str) -> (r: Option<&String>)
        ensures
            r matches Some(v) ==> self.get_spec(key@) == Some(v@),
            r is None ==> self.get_spec(key@) is None,
    {
        proof {
            use_type_invariant(self);
            lemma_lookup_unique(self.pairs(), key@);
        }
        let kb = key.as_bytes();
        let mut i: usize = 0;
        while i < self.entries.len()
            invariant
                kb@ == encode_utf8(key@),
                i <= self.entries@.len(),
                forall|j: int| 0 <= j < i ==> #[trigger] self.pairs()[j].0 != key@,
            decreases self.entries@.len() - i,
        {
            let eb = self.entries[i].0.as_str().as_bytes();
            if compare_bytes(eb, kb) == ByteOrder::Same {
                assert(decode_utf8(eb@) == decode_utf8(kb@));
                assert(self.pairs()[i as int].0 == key@);
                proof {
                    use_type_invariant(self);
                    lemma_lookup_unique(self.pairs(), key@);
                }
                return Some(&self.entries[i].1);
            }
            i = i + 1;
        }
        None
    }

    /// Where `key` belongs: the first entry whose key is not below it, and
    /// whether that entry has `key` itself.
    fn find_slot(&self, key: &str) -> (r: (usize, bool))
        ensures
            r.0 <= self.pairs().len(),
            forall|j: int| 0 <= j < r.0 ==> bytes_lt(encode_utf8(#[trigger] self.pairs()[j].0), encode_utf8(key@)),
            r.1 ==> r.0 < self.pairs().len() && self.pairs()[r.0 as int].0 == key@,
            !r.1 && r.0 < self.pairs().len() ==> bytes_lt(encode_utf8(key@), encode_utf8(self.pairs()[r.0 as int].0)),
    {
        let kb = key.as_bytes();
        let mut i: usize = 0;
        while i < self.entries.len() && compare_bytes(self.entries[i].0.as_str().as_bytes(), kb)
            == ByteOrder::Less
            invariant
                kb@ == encode_utf8(key@),
                i <= self.entries@.len(),
                forall|j: int| 0 <= j < i ==> bytes_lt(encode_utf8(#[trigger] self.pairs()[j].0), kb@),
            decreases self.entries@.len() - i,
        {
            i = i + 1;
        }
        if i < self.entries.len() {
            let eb = self.entries[i].0.as_str().as_bytes();
            let order = compare_bytes(eb, kb);
            if order == ByteOrder::Same {
                assert(decode_utf8(eb@) == decode_utf8(kb@));
                return (i, true);
            }
        }
        (i, false)
    }

    /// Binds `key` to `value`, replacing an earlier binding (`BTreeMap::insert`).
    pub fn insert(&mut self, key: String, value: String)
        ensures
            keys_sorted(final(self).pairs()),
            final(self).get_spec(key@) == Some(value@),
            forall|k: Seq<char>| k != key@ ==> final(self).get_spec(k) == old(self).get_spec(k),
            final(self).pairs().len() == old(self).pairs().len() + if old(self).get_spec(key@) is Some {
                0int
            } else {
                1int
            },
    {
        proof {
            use_type_invariant(&*self);
        }
        let ghost old_pairs = self.pairs();
        let ghost kv = key@;
        let ghost kbytes = encode_utf8(kv);
        let (i, found) = self.find_slot(key.as_str());
        proof {
            lemma_lookup_unique(old_pairs, kv);
        }
        let mut entries: Vec<(String, String)> = Vec::new();
        std::mem::swap(&mut entries, &mut self.entries);
        assert(entries@.map_values(|e: (String, String)| (e.0@, e.1@)) == old_pairs);
        let ghost vv = value@;
        if found {
            entries.set(i, (key, value));
            proof {
                let p = entries@.map_values(|e: (String, String)| (e.0@, e.1@));
                assert(p =~= old_pairs.update(i as int, (kv, vv)));
                assert(keys_sorted(p)) by {
                    assert forall|a: int, b: int| 0 <= a < b < p.len() implies bytes_lt(
                        encode_utf8(#[trigger] p[a].0),
                        encode_utf8(#[trigger] p[b].0),
                    ) by {
                        assert(p[a].0 == old_pairs[a].0 && p[b].0 == old_pairs[b].0);
                    }
                }
                lemma_lookup_unique(p, kv);
                assert(p[i as int].0 == kv);
                assert forall|k: Seq<char>| k != kv implies lookup(p, k) == lookup(old_pairs, k) by {
                    lemma_lookup_unique(p, k);
                    lemma_lookup_unique(old_pairs, k);
                    if exists|j: int| 0 <= j < p.len() && #[trigger] p[j].0 == k {
                        let j = choose|j: int| 0 <= j < p.len() && #[trigger] p[j].0 == k;
                        assert(old_pairs[j] == p[j]);
                    } else {
                        assert forall|j: int| 0 <= j < old_pairs.len() implies #[trigger] old_pairs[j].0 != k by {
                            if j != i {
                                assert(old_pairs[j] == p[j]);
                            }
                        }
                    }
                }
            }
            self.entries = entries;
        } else {
            entries.insert(i, (key, value));
            proof {
                let p = entries@.map_values(|e: (String, String)| (e.0@, e.1@));
                assert(p =~= old_pairs.insert(i as int, (kv, vv)));
                assert forall|j: int| 0 <= j < old_pairs.len() implies #[trigger] old_pairs[j].0 != kv by {
                    lemma_bytes_lt_total(kbytes, kbytes);
                    if j < i {
                        assert(bytes_lt(encode_utf8(old_pairs[j].0), kbytes));
                    } else {
                        if j > i {
                            assert(bytes_lt(encode_utf8(old_pairs[i as int].0), encode_utf8(old_pairs[j].0)));
                            lemma_bytes_lt_trans(kbytes, encode_utf8(old_pairs[i as int].0), encode_utf8(old_pairs[j].0));
                        }
                    }
                }
                assert(keys_sorted(p)) by {
                    assert forall|a: int, b: int| 0 <= a < b < p.len() implies bytes_lt(
                        encode_utf8(#[trigger] p[a].0),
                        encode_utf8(#[trigger] p[b].0),
                    ) by {
                        if b < i {
                            assert(p[a] == old_pairs[a] && p[b] == old_pairs[b]);
                        } else if b == i {
                            assert(p[a] == old_pairs[a]);
                        } else if a == i {
                            assert(p[b] == old_pairs[b - 1]);
                            if b - 1 > i {
                                assert(bytes_lt(encode_utf8(old_pairs[i as int].0), encode_utf8(old_pairs[b - 1].0)));
                                lemma_bytes_lt_trans(kbytes, encode_utf8(old_pairs[i as int].0), encode_utf8(old_pairs[b - 1].0));
                            }
                        } else if a < i {
                            assert(p[a] == old_pairs[a] && p[b] == old_pairs[b - 1]);
                        } else {
                            assert(p[a] == old_pairs[a - 1] && p[b] == old_pairs[b - 1]);
                        }
                    }
                }
                lemma_lookup_unique(p, kv);
                assert(p[i as int].0 == kv);
                assert forall|k: Seq<char>| k != kv implies lookup(p, k) == lookup(old_pairs, k) by {
                    lemma_lookup_unique(p, k);
                    lemma_lookup_unique(old_pairs, k);
                    if exists|j: int| 0 <= j < p.len() && #[trigger] p[j].0 == k {
                        let j = choose|j: int| 0 <= j < p.len() && #[trigger] p[j].0 == k;
                        if j < i {
                            assert(old_pairs[j] == p[j]);
                        } else {
                            assert(old_pairs[j - 1] == p[j]);
                        }
                    } else {
                        assert forall|j: int| 0 <= j < old_pairs.len() implies #[trigger] old_pairs[j].0 != k by {
                            if j < i {
                                assert(old_pairs[j] == p[j]);
                            } else {
                                assert(old_pairs[j] == p[j + 1]);
                            }
                        }
                    }
                }
            }
            self.entries = entries;
        }
    }
}

impl Clone for StringMap {
    /// A map with the same entries.
    fn clone(&self) -> (r: Self)
        ensures
            r.pairs() == self.pairs(),
    {
        proof {
            use_type_invariant(self);
        }
        let mut entries: Vec<(String, String)> = Vec::new();
        let mut i: usize = 0;
        while i < self.entries.len()
            invariant
                i <= self.entries@.len(),
                keys_sorted(self.pairs()),
                entries@.map_values(|e: (String, String)| (e.0@, e.1@)) == self.pairs().take(i as int),
            decreases self.entries@.len() - i,
        {
            let ghost before = entries@.map_values(|e: (String, String)| (e.0@, e.1@));
            let key = copy_string(&self.entries[i].0);
            let value = copy_string(&self.entries[i].1);
            entries.push((key, value));
            assert(entries@.map_values(|e: (String, String)| (e.0@, e.1@)) =~= before.push(
                self.pairs()[i as int],
            ));
            assert(self.pairs().take(i + 1) =~= self.pairs().take(i as int).push(self.pairs()[i as int]));
            i = i + 1;
        }
        assert(self.pairs().take(self.entries@.len() as int) =~= self.pairs());
        StringMap { entries }
    }
}

} // verus!
