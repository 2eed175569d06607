//! A hash map from strings to values, with a fixed number of buckets and
//! a list of entries in each bucket.

use vstd::prelude::*;

verus! {

/// The number of buckets.
pub const MAP_SIZE: usize = 3;

/// The factor of the hash function.
pub const HASH_CONSTANT: usize = 31;

/// The number of characters of a key that its hash depends on.
pub const HASHED_PREFIX: usize = 100;

/// The hash of the characters `s`: each character in turn is added to 31
/// times the hash so far, modulo the number of buckets.
pub open spec fn fold_hash(s: Seq<char>) -> nat
    decreases s.len(),
{
    if s.len() == 0 {
        0
    } else {
        (fold_hash(s.drop_last()) * 31 + s[s.len() - 1] as nat) % 3
    }
}

/// The bucket of `key`: the hash of its first hundred characters.
pub open spec fn bucket_of(key: Seq<char>) -> nat {
    if key.len() <= 100 {
        fold_hash(key)
    } else {
        fold_hash(key.take(100))
    }
}

/// The position of the first entry of `bucket` under `key`, or the length
/// of `bucket` if there is none.
pub open spec fn position<V>(bucket: Seq<(String, V)>, key: Seq<char>) -> int
    decreases bucket.len(),
{
    if bucket.len() == 0 {
        0
    } else if bucket[0].0@ == key {
        0
    } else {
        1 + position(bucket.drop_first(), key)
    }
}

/// The value that `buckets` holds under `key`: that of the first entry
/// under `key` in the bucket of `key`.
pub open spec fn lookup<V>(buckets: Seq<Vec<(String, V)>>, key: Seq<char>) -> Option<V> {
    if bucket_of(key) < buckets.len() {
        let bucket = buckets[bucket_of(key) as int]@;
        if position(bucket, key) < bucket.len() {
            Some(bucket[position(bucket, key)].1)
        } else {
            None
        }
    } else {
        None
    }
}

/// The map has all its buckets, every entry is in the bucket of its key,
/// and no key has two entries.
pub open spec fn well_formed<V>(buckets: Seq<Vec<(String, V)>>) -> bool {
    &&& buckets.len() == 3
    &&& forall|b: int, i: int|
        0 <= b < buckets.len() && 0 <= i < buckets[b]@.len() ==> bucket_of(
            (#[trigger] buckets[b]@[i]).0@,
        ) == b
    &&& forall|b: int, i: int, j: int|
        0 <= b < buckets.len() && 0 <= i < buckets[b]@.len() && 0 <= j < buckets[b]@.len() && i
            != j ==> (#[trigger] buckets[b]@[i]).0@ != (#[trigger] buckets[b]@[j]).0@
}

/// The position of a key is that of its first entry.
pub proof fn lemma_position<V>(bucket: Seq<(String, V)>, key: Seq<char>)
    ensures
        0 <= position(bucket, key) <= bucket.len(),
        position(bucket, key) < bucket.len() ==> bucket[position(bucket, key)].0@ == key,
        forall|j: int| 0 <= j < position(bucket, key) ==> (#[trigger] bucket[j]).0@ != key,
    decreases bucket.len(),
{
    if bucket.len() > 0 && bucket[0].0@ != key {
        let rest = bucket.drop_first();
        lemma_position(rest, key);
        assert forall|j: int| 0 <= j < position(bucket, key) implies (#[trigger] bucket[j]).0@
            != key by {
            if j > 0 {
                assert(rest[j - 1] == bucket[j]);
            }
        }
    }
}

/// A position before which no entry is under `key`, and at which the
/// bucket ends or an entry under `key` stands, is the position of `key`.
pub proof fn lemma_position_is<V>(bucket: Seq<(String, V)>, key: Seq<char>, p: int)
    requires
        0 <= p <= bucket.len(),
        forall|j: int| 0 <= j < p ==> (#[trigger] bucket[j]).0@ != key,
        p < bucket.len() ==> bucket[p].0@ == key,
    ensures
        position(bucket, key) == p,
    decreases bucket.len(),
{
    if p > 0 {
        let rest = bucket.drop_first();
        assert(bucket[0].0@ != key);
        assert forall|j: int| 0 <= j < p - 1 implies (#[trigger] rest[j]).0@ != key by {
            assert(rest[j] == bucket[j + 1]);
        }
        lemma_position_is(rest, key, p - 1);
    }
}

/// A hash map from strings to values.
pub struct HashMap<V: Clone> {
    pub key_map: Vec<Vec<(String, V)>>,
}

impl<V: Clone> HashMap<V> {
    /// Creates an empty map.
    pub fn new() -> (map: Self)
        ensures
            well_formed(map.key_map@),
            forall|key: Seq<char>| lookup(map.key_map@, key) is None,
    {
        let mut key_map: Vec<Vec<(String, V)>> = Vec::new();
        let mut i: usize = 0;
        while i < MAP_SIZE
            invariant
                i <= MAP_SIZE,
                key_map@.len() == i,
                forall|b: int| 0 <= b < i ==> (#[trigger] key_map@[b])@.len() == 0,
            decreases MAP_SIZE - i,
        {
            key_map.push(Vec::new());
            i += 1;
        }
        Self { key_map }
    }

    /// Returns the bucket of `key`.
    pub fn hash(key: &String) -> (index: usize)
        ensures
            index == bucket_of(key@),
            index < MAP_SIZE,
    {
        let text = key.as_str();
        let length = text.unicode_len();
        let limit = if length < HASHED_PREFIX {
            length
        } else {
            HASHED_PREFIX
        };
        let mut acc: usize = 0;
        let mut i: usize = 0;
        while i < limit
            invariant
                i <= limit <= key@.len(),
                text@ == key@,
                acc == fold_hash(key@.take(i as int)),
                acc < 3,
            decreases limit - i,
        {
            let c = text.get_char(i);
            proof {
                assert(key@.take(i + 1).drop_last() =~= key@.take(i as int));
            }
            acc = (acc * HASH_CONSTANT + c as usize) % MAP_SIZE;
            i += 1;
        }
        proof {
            if key@.len() <= 100 {
                assert(key@.take(limit as int) =~= key@);
            }
        }
        acc
    }

    /// Position in `bucket` of the first entry under `key`, or the length
    /// of `bucket` if there is none.
    fn find(bucket: &Vec<(String, V)>, key: &String) -> (found: usize)
        ensures
            found == position(bucket@, key@),
            found <= bucket@.len(),
    {
        let mut i: usize = 0;
        while i < bucket.len()
            invariant
                i <= bucket@.len(),
                forall|j: int| 0 <= j < i ==> (#[trigger] bucket@[j]).0@ != key@,
            decreases bucket@.len() - i,
        {
            if bucket[i].0 == *key {
                proof {
                    lemma_position_is(bucket@, key@, i as int);
                }
                return i;
            }
            i += 1;
        }
        proof {
            lemma_position_is(bucket@, key@, i as int);
        }
        i
    }

    /// Puts `value` under `key`: in place of the value that the first
    /// entry under `key` holds, or in a new entry at the end of the bucket
    /// of `key`.
    pub fn set(&mut self, key: String, value: V)
        requires
            old(self).key_map@.len() == MAP_SIZE,
        ensures
            final(self).key_map@.len() == MAP_SIZE,
            lookup(final(self).key_map@, key@) == Some(value),
            forall|other: Seq<char>|
                other != key@ ==> lookup(final(self).key_map@, other) == lookup(
                    old(self).key_map@,
                    other,
                ),
            well_formed(old(self).key_map@) ==> well_formed(final(self).key_map@),
    {
        let index = Self::hash(&key);
        let ghost before = self.key_map@;
        let ghost bucket = before[index as int]@;
        let found = Self::find(&self.key_map[index], &key);
        proof {
            lemma_position(bucket, key@);
        }
        if found < self.key_map[index].len() {
            self.key_map[index][found].1 = value;
        } else {
            self.key_map[index].push((key, value));
        }
        proof {
            let after = self.key_map@;
            let changed = after[index as int]@;
            assert(forall|b: int| 0 <= b < 3 && b != index ==> after[b] == before[b]);
            assert(forall|i: int|
                0 <= i < bucket.len() && i != found ==> #[trigger] changed[i] == bucket[i]);
            assert(changed[found as int].0@ == key@);
            assert(changed[found as int].1 == value);
            lemma_position_is(changed, key@, found as int);
            assert forall|other: Seq<char>| other != key@ implies lookup(after, other) == lookup(
                before,
                other,
            ) by {
                if bucket_of(other) == index {
                    lemma_position(bucket, other);
                    let p = position(bucket, other);
                    if p < bucket.len() {
                        assert(p != found);
                    }
                    assert forall|j: int| 0 <= j < p implies (#[trigger] changed[j]).0@
                        != other by {
                        assert(bucket[j].0@ != other);
                    }
                    if p == bucket.len() && changed.len() > bucket.len() {
                        lemma_position_is(changed, other, p + 1);
                    } else {
                        lemma_position_is(changed, other, p);
                    }
                }
            }
            if well_formed(before) {
                assert forall|b: int, i: int|
                    0 <= b < after.len() && 0 <= i < after[b]@.len() implies bucket_of(
                    (#[trigger] after[b]@[i]).0@,
                ) == b by {
                    if b == index && i < bucket.len() {
                        assert(bucket_of(before[b]@[i].0@) == b);
                    } else if b != index {
                        assert(bucket_of(before[b]@[i].0@) == b);
                    }
                }
                assert forall|b: int, i: int, j: int|
                    0 <= b < after.len() && 0 <= i < after[b]@.len() && 0 <= j < after[b]@.len()
                        && i != j implies (#[trigger] after[b]@[i]).0@ != (
                #[trigger] after[b]@[j]).0@ by {
                    if b == index {
                        if i < bucket.len() && j < bucket.len() {
                            assert(before[b]@[i].0@ != before[b]@[j].0@);
                        }
                    } else {
                        assert(before[b]@[i].0@ != before[b]@[j].0@);
                    }
                }
            }
        }
    }

    /// Returns the value that the map holds under `key`, if any.
    pub fn get(&self, key: String) -> (found: Option<&V>)
        ensures
            match found {
                Some(value) => lookup(self.key_map@, key@) == Some(*value),
                None => lookup(self.key_map@, key@) is None,
            },
    {
        let index = Self::hash(&key);
        if index >= self.key_map.len() {
            return None;
        }
        let found = Self::find(&self.key_map[index], &key);
        if found < self.key_map[index].len() {
            Some(&self.key_map[index][found].1)
        } else {
            None
        }
    }

    /// Removes the first entry under `key` and returns its value, if
    /// there is one.
    pub fn delete(&mut self, key: String) -> (removed: Option<V>)
        requires
            old(self).key_map@.len() == MAP_SIZE,
        ensures
            final(self).key_map@.len() == MAP_SIZE,
            removed == lookup(old(self).key_map@, key@),
            forall|other: Seq<char>|
                other != key@ ==> lookup(final(self).key_map@, other) == lookup(
                    old(self).key_map@,
                    other,
                ),
            well_formed(old(self).key_map@) ==> well_formed(final(self).key_map@) && lookup(
                final(self).key_map@,
                key@,
            ) is None,
    {
        let index = Self::hash(&key);
        let ghost before = self.key_map@;
        let ghost bucket = before[index as int]@;
        let found = Self::find(&self.key_map[index], &key);
        proof {
            lemma_position(bucket, key@);
        }
        if found < self.key_map[index].len() {
            let entry = self.key_map[index].remove(found);
            proof {
                let after = self.key_map@;
                let changed = after[index as int]@;
                assert(changed == bucket.remove(found as int));
                assert(forall|b: int| 0 <= b < 3 && b != index ==> after[b] == before[b]);
                assert forall|other: Seq<char>| other != key@ implies lookup(after, other)
                    == lookup(before, other) by {
                    if bucket_of(other) == index {
                        lemma_position(bucket, other);
                        let p = position(bucket, other);
                        let q = if p < found {
                            p
                        } else {
                            p - 1
                        };
                        assert forall|j: int| 0 <= j < q implies (#[trigger] changed[j]).0@
                            != other by {
                            let j1 = if j < found {
                                j
                            } else {
                                j + 1
                            };
                            assert(changed[j] == bucket[j1]);
                        }
                        if p < bucket.len() {
                            assert(changed[q] == bucket[p]);
                        }
                        lemma_position_is(changed, other, q);
                    }
                }
                if well_formed(before) {
                    assert forall|b: int, i: int|
                        0 <= b < after.len() && 0 <= i < after[b]@.len() implies bucket_of(
                        (#[trigger] after[b]@[i]).0@,
                    ) == b by {
                        let i1 = if b == index && i >= found {
                            i + 1
                        } else {
                            i
                        };
                        assert(after[b]@[i] == before[b]@[i1]);
                        assert(bucket_of(before[b]@[i1].0@) == b);
                    }
                    assert forall|b: int, i: int, j: int|
                        0 <= b < after.len() && 0 <= i < after[b]@.len() && 0 <= j
                            < after[b]@.len() && i != j implies (#[trigger] after[b]@[i]).0@ != (
                    #[trigger] after[b]@[j]).0@ by {
                        let i1 = if b == index && i >= found {
                            i + 1
                        } else {
                            i
                        };
                        let j1 = if b == index && j >= found {
                            j + 1
                        } else {
                            j
                        };
                        assert(after[b]@[i] == before[b]@[i1]);
                        assert(after[b]@[j] == before[b]@[j1]);
                        assert(before[b]@[i1].0@ != before[b]@[j1].0@);
                    }
                    assert forall|j: int| 0 <= j < changed.len() implies (#[trigger] changed[j]).0@
                        != key@ by {
                        let j1 = if j < found {
                            j
                        } else {
                            j + 1
                        };
                        assert(changed[j] == bucket[j1]);
                        assert(bucket[j1].0@ != bucket[found as int].0@);
                    }
                    lemma_position_is(changed, key@, changed.len() as int);
                }
            }
            Some(entry.1)
        } else {
            None
        }
    }
}

} // verus!
