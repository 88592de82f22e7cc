//! A lookup table from names to node slots.

use std::collections::hash_map::DefaultHasher;
use std::collections::HashMap;
use std::hash::Hasher;
use vstd::prelude::*;
use vstd::std_specs::hash::DefaultHasherAdditionalSpecFns;
use vstd::string::*;

verus! {

/// The hash of a name: that of its bytes, closed by the byte `0xff`, under
/// std's default hasher in its initial state.
pub open spec fn name_hash(key: Seq<char>) -> u64 {
    DefaultHasher::spec_finish(seq![vstd::utf8::encode_utf8(key), seq![0xffu8]])
}

/// The hash of a name.
pub fn hash_name(key: &str) -> (r: u64)
    ensures
        r == name_hash(key@),
{
    let mut hasher = DefaultHasher::new();
    hasher.write(key.as_bytes());
    let mut end: Vec<u8> = Vec::new();
    end.push(0xff);
    hasher.write(end.as_slice());
    assert(hasher@ =~= seq![vstd::utf8::encode_utf8(key@), seq![0xffu8]]);
    hasher.finish()
}

/// Maps each name it holds to one slot. Names are compared by their
/// characters; a name is held at most once.
pub struct NameIndex {
    keys: Vec<String>,
    slots: Vec<usize>,
    /// The places of the keys, by the hash of the key.
    buckets: HashMap<u64, Vec<usize>>,
}

/// The map that parallel sequences of keys and slots stand for.
pub open spec fn entries_map(keys: Seq<String>, slots: Seq<usize>) -> Map<Seq<char>, usize>
    decreases keys.len(),
{
    if keys.len() == 0 || slots.len() != keys.len() {
        Map::empty()
    } else {
        entries_map(keys.drop_last(), slots.drop_last()).insert(keys.last()@, slots.last())
    }
}

proof fn lemma_entries_map(keys: Seq<String>, slots: Seq<usize>)
    requires
        keys.len() == slots.len(),
        forall|i: int, j: int| 0 <= i < j < keys.len() ==> keys[i]@ != keys[j]@,
    ensures
        forall|i: int|
            0 <= i < keys.len() ==> entries_map(keys, slots).contains_key((#[trigger] keys[i])@)
                && entries_map(keys, slots)[keys[i]@] == slots[i],
        forall|k: Seq<char>| #[trigger]
            entries_map(keys, slots).contains_key(k) ==> exists|i: int|
                0 <= i < keys.len() && keys[i]@ == k,
    decreases keys.len(),
{
    if keys.len() > 0 {
        lemma_entries_map(keys.drop_last(), slots.drop_last());
        let m = entries_map(keys.drop_last(), slots.drop_last());
        assert forall|i: int| 0 <= i < keys.len() implies entries_map(keys, slots).contains_key(
            (#[trigger] keys[i])@,
        ) && entries_map(keys, slots)[keys[i]@] == slots[i] by {
            if i < keys.len() - 1 {
                assert(keys.drop_last()[i] == keys[i]);
                assert(slots.drop_last()[i] == slots[i]);
                assert(m.contains_key(keys.drop_last()[i]@));
            }
        }
        assert forall|k: Seq<char>| #[trigger]
            entries_map(keys, slots).contains_key(k) implies exists|i: int|
            0 <= i < keys.len() && keys[i]@ == k by {
            if k == keys.last()@ {
                assert(keys[keys.len() - 1]@ == k);
            } else {
                assert(m.contains_key(k));
                let i = choose|i: int| 0 <= i < keys.drop_last().len() && keys.drop_last()[i]@ == k;
                assert(keys[i]@ == k);
            }
        }
    }
}

impl View for NameIndex {
    type V = Map<Seq<char>, usize>;

    closed spec fn view(&self) -> Map<Seq<char>, usize> {
        entries_map(self.keys@, self.slots@)
    }
}

impl NameIndex {
    /// Keys and slots run in parallel, no name is held twice, and each
    /// key's place stands under the key's hash and nowhere else.
    pub closed spec fn wf(&self) -> bool {
        &&& self.keys@.len() == self.slots@.len()
        &&& forall|i: int, j: int| 0 <= i < j < self.keys@.len() ==> self.keys@[i]@ != self.keys@[j]@
        &&& forall|i: int|
            0 <= i < self.keys@.len() ==> self.buckets@.contains_key(
                name_hash((#[trigger] self.keys@[i])@),
            ) && self.buckets@[name_hash(self.keys@[i]@)]@.contains(i as usize)
        &&& forall|h: u64, j: int|
            self.buckets@.contains_key(h) && 0 <= j < self.buckets@[h]@.len() ==> (
            #[trigger] self.buckets@[h]@[j]) < self.keys@.len() && name_hash(
                self.keys@[self.buckets@[h]@[j] as int]@,
            ) == h
    }

    pub fn new() -> (r: NameIndex)
        ensures
            r.wf(),
            r@ == Map::<Seq<char>, usize>::empty(),
    {
        NameIndex { keys: Vec::new(), slots: Vec::new(), buckets: HashMap::new() }
    }

    /// The place of `key` among the keys, if it is held.
    fn find(&self, key: &String) -> (r: Option<usize>)
        requires
            self.wf(),
        ensures
            r is Some <==> self@.contains_key(key@),
            r is Some ==> r.unwrap() < self.keys@.len() && self.keys@[r.unwrap() as int]@ == key@,
    {
        proof {
            lemma_entries_map(self.keys@, self.slots@);
        }
        let hash = hash_name(key.as_str());
        let bucket = match self.buckets.get(&hash) {
            Some(bucket) => bucket,
            None => {
                proof {
                    if self@.contains_key(key@) {
                        let i = choose|i: int| 0 <= i < self.keys@.len() && self.keys@[i]@ == key@;
                        assert(self.buckets@.contains_key(name_hash(self.keys@[i]@)));
                    }
                }
                return None;
            },
        };
        let mut j: usize = 0;
        while j < bucket.len()
            invariant
                self.wf(),
                j <= bucket.len(),
                self.buckets@.contains_key(hash),
                *bucket == self.buckets@[hash],
                hash == name_hash(key@),
                forall|k: int| 0 <= k < j ==> self.keys@[bucket@[k] as int]@ != key@,
                forall|i: int|
                    0 <= i < self.keys@.len() ==> self@.contains_key((#[trigger] self.keys@[i])@),
                forall|k: Seq<char>| #[trigger]
                    self@.contains_key(k) ==> exists|i: int|
                        0 <= i < self.keys@.len() && self.keys@[i]@ == k,
            decreases bucket.len() - j,
        {
            let place = bucket[j];
            assert(self.buckets@[hash]@[j as int] < self.keys@.len());
            if self.keys[place] == *key {
                assert(self@.contains_key(self.keys@[place as int]@));
                return Some(place);
            }
            j += 1;
        }
        let count = self.keys.len();
        proof {
            if self@.contains_key(key@) {
                let i = choose|i: int| 0 <= i < self.keys@.len() && self.keys@[i]@ == key@;
                assert(i < count);
                assert(self.buckets@[name_hash(self.keys@[i]@)]@.contains(i as usize));
                let k = choose|k: int| 0 <= k < bucket@.len() && bucket@[k] == i as usize;
                assert(self.keys@[bucket@[k] as int]@ != key@);
            }
        }
        None
    }

    /// The slot held for `key`, if any.
    pub fn get(&self, key: &String) -> (r: Option<usize>)
        requires
            self.wf(),
        ensures
            r == (if self@.contains_key(key@) {
                Some(self@[key@])
            } else {
                None
            }),
    {
        proof {
            lemma_entries_map(self.keys@, self.slots@);
        }
        match self.find(key) {
            Some(place) => Some(self.slots[place]),
            None => None,
        }
    }

    pub fn contains_key(&self, key: &String) -> (r: bool)
        requires
            self.wf(),
        ensures
            r == self@.contains_key(key@),
    {
        self.get(key).is_some()
    }

    /// Records `slot` for `key`, in place of the slot it may have had.
    pub fn insert(&mut self, key: String, slot: usize)
        requires
            old(self).wf(),
        ensures
            final(self).wf(),
            final(self)@ == old(self)@.insert(key@, slot),
    {
        if let Some(place) = self.find(&key) {
            let ghost slots0 = self.slots@;
            self.slots.set(place, slot);
            proof {
                lemma_entries_map(self.keys@, slots0);
                lemma_entries_map(self.keys@, self.slots@);
                assert(self@ =~= old(self)@.insert(key@, slot)) by {
                    assert forall|k: Seq<char>| self@.contains_key(k) implies #[trigger] self@[k]
                        == old(self)@.insert(key@, slot)[k] by {
                        let i = choose|i: int| 0 <= i < self.keys@.len() && self.keys@[i]@ == k;
                        assert(self@[self.keys@[i]@] == self.slots@[i]);
                        assert(old(self)@[self.keys@[i]@] == slots0[i]);
                    }
                    assert forall|k: Seq<char>|
                        old(self)@.insert(key@, slot).contains_key(k) implies #[trigger] self@.contains_key(
                        k,
                    ) by {
                        if k != key@ {
                            let i = choose|i: int| 0 <= i < self.keys@.len() && self.keys@[i]@ == k;
                            assert(self@.contains_key(self.keys@[i]@));
                        } else {
                            assert(self@.contains_key(self.keys@[place as int]@));
                        }
                    }
                }
            }
            return ;
        }
        proof {
            lemma_entries_map(self.keys@, self.slots@);
        }
        let ghost keys0 = self.keys@;
        let ghost slots0 = self.slots@;
        let ghost buckets0 = self.buckets@;
        let hash = hash_name(key.as_str());
        let place = self.keys.len();
        let mut bucket = match self.buckets.remove(&hash) {
            Some(bucket) => bucket,
            None => Vec::new(),
        };
        let ghost before = bucket@;
        assert(buckets0.contains_key(hash) ==> before == buckets0[hash]@);
        assert(!buckets0.contains_key(hash) ==> before.len() == 0);
        bucket.push(place);
        self.buckets.insert(hash, bucket);
        self.keys.push(key);
        self.slots.push(slot);
        proof {
            assert(self.keys@.drop_last() =~= keys0);
            assert(self.slots@.drop_last() =~= slots0);
            assert forall|i: int, j: int| 0 <= i < j < self.keys@.len() implies self.keys@[i]@
                != self.keys@[j]@ by {
                if j == keys0.len() {
                    assert(entries_map(keys0, slots0).contains_key(keys0[i]@));
                }
            }
            assert forall|i: int| 0 <= i < self.keys@.len() implies self.buckets@.contains_key(
                name_hash((#[trigger] self.keys@[i])@),
            ) && self.buckets@[name_hash(self.keys@[i]@)]@.contains(i as usize) by {
                let h = name_hash(self.keys@[i]@);
                if i < keys0.len() {
                    assert(self.keys@[i] == keys0[i]);
                    assert(buckets0.contains_key(h) && buckets0[h]@.contains(i as usize));
                    if h == hash {
                        let k = choose|k: int| 0 <= k < before.len() && before[k] == i as usize;
                        assert(self.buckets@[h]@[k] == i as usize);
                    }
                } else {
                    assert(self.buckets@[h]@[before.len() as int] == i as usize);
                }
            }
            assert forall|h: u64, j: int|
                self.buckets@.contains_key(h) && 0 <= j < self.buckets@[h]@.len() implies (
            #[trigger] self.buckets@[h]@[j]) < self.keys@.len() && name_hash(
                self.keys@[self.buckets@[h]@[j] as int]@,
            ) == h by {
                if h == hash {
                    if j < before.len() {
                        assert(buckets0.contains_key(h));
                        assert(self.buckets@[h]@[j] == buckets0[h]@[j]);
                        assert(self.keys@[buckets0[h]@[j] as int] == keys0[buckets0[h]@[j] as int]);
                    }
                } else {
                    assert(buckets0.contains_key(h));
                    assert(self.buckets@[h] == buckets0[h]);
                    assert(self.keys@[buckets0[h]@[j] as int] == keys0[buckets0[h]@[j] as int]);
                }
            }
        }
    }
}

} // verus!
