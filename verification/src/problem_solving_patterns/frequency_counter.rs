//! Counting how often things occur: grouping items by a key, and
//! comparing the digits of two numbers.

use vstd::prelude::*;
use vstd::seq_lib::lemma_multiset_commutative;
use vstd::std_specs::hash::obeys_key_model;
use std::collections::HashMap;
use std::hash::Hash;

verus! {

/// The groups of `items` by the keys in `keys`, where `keys[i]` is the key
/// of `items[i]`: each key that occurs is mapped to the items with that
/// key, in the order in which they stand in `items`.
pub open spec fn grouped<T, K>(items: Seq<T>, keys: Seq<K>) -> Map<K, Seq<T>>
    decreases items.len(),
{
    if items.len() == 0 || keys.len() != items.len() {
        Map::empty()
    } else {
        let rest = grouped(items.drop_last(), keys.drop_last());
        let key = keys.last();
        let group = if rest.contains_key(key) {
            rest[key]
        } else {
            Seq::empty()
        };
        rest.insert(key, group.push(items.last()))
    }
}

/// What the groups of a hash map hold.
pub open spec fn groups_of<T, K>(map: Map<K, Vec<T>>) -> Map<K, Seq<T>> {
    map.map_values(|group: Vec<T>| group@)
}

/// Groups the items of `data` by the key that `key_fn` gives for each of
/// them. Each key is mapped to the items with that key, in the order in
/// which they stand in `data`.
pub fn group_by<T, K, F>(data: Vec<T>, key_fn: F) -> (result: HashMap<K, Vec<T>>) where
    K: Eq + Hash,
    F: Fn(&T) -> K,

    requires
        forall|i: int| 0 <= i < data@.len() ==> call_requires(key_fn, (&#[trigger] data@[i],)),
    ensures
        obeys_key_model::<K>() ==> exists|keys: Seq<K>|
            {
                &&& keys.len() == data@.len()
                &&& forall|i: int|
                    0 <= i < data@.len() ==> call_ensures(
                        key_fn,
                        (&#[trigger] data@[i],),
                        keys[i],
                    )
                &&& groups_of(result@) == #[trigger] grouped(data@, keys)
            },
{
    broadcast use vstd::std_specs::hash::group_hash_axioms;

    let ghost items = data@;
    let n = data.len();
    // Turn the items round, so that they can be taken out first to last.
    let mut data = data;
    let mut waiting: Vec<T> = Vec::new();
    while data.len() > 0
        invariant
            data@.len() + waiting@.len() == n,
            n == items.len(),
            forall|j: int| 0 <= j < data@.len() ==> data@[j] == items[j],
            forall|j: int| 0 <= j < waiting@.len() ==> waiting@[j] == items[n - 1 - j],
        decreases data@.len(),
    {
        let item = data.pop().unwrap();
        waiting.push(item);
    }
    let mut result: HashMap<K, Vec<T>> = HashMap::new();
    let ghost mut keys: Seq<K> = Seq::empty();
    proof {
        assert(groups_of(result@) =~= grouped(items.take(0), keys));
    }
    while waiting.len() > 0
        invariant
            waiting@.len() <= n,
            n == items.len(),
            keys.len() == n - waiting@.len(),
            forall|j: int| 0 <= j < waiting@.len() ==> waiting@[j] == items[n - 1 - j],
            forall|i: int| 0 <= i < n ==> call_requires(key_fn, (&#[trigger] items[i],)),
            forall|i: int|
                0 <= i < keys.len() ==> call_ensures(key_fn, (&#[trigger] items[i],), keys[i]),
            obeys_key_model::<K>() ==> groups_of(result@) == grouped(
                items.take(keys.len() as int),
                keys,
            ),
        decreases waiting@.len(),
    {
        let ghost done = keys.len() as int;
        let ghost keys_before = keys;
        let ghost before = result@;
        let item = waiting.pop().unwrap();
        proof {
            assert(item == items[done]);
        }
        let key = key_fn(&item);
        let ghost key_value = key;
        let mut group = match result.remove(&key) {
            Some(group) => group,
            None => Vec::new(),
        };
        let ghost group_before = group@;
        group.push(item);
        result.insert(key, group);
        proof {
            keys = keys.push(key_value);
            if obeys_key_model::<K>() {
                let rest = grouped(items.take(done), keys.drop_last());
                assert(keys.drop_last() =~= keys_before);
                assert(items.take(done + 1).drop_last() =~= items.take(done));
                assert(groups_of(before) == rest);
                assert(rest.contains_key(key_value) == before.contains_key(key_value));
                if before.contains_key(key_value) {
                    assert(rest[key_value] == before[key_value]@);
                }
                assert(groups_of(result@) =~= rest.insert(
                    key_value,
                    group_before.push(items[done]),
                ));
            }
        }
    }
    proof {
        assert(items.take(n as int) =~= items);
    }
    result
}

/// The character that stands for the decimal digit `d`.
pub open spec fn digit_char(d: nat) -> char {
    if d == 0 {
        '0'
    } else if d == 1 {
        '1'
    } else if d == 2 {
        '2'
    } else if d == 3 {
        '3'
    } else if d == 4 {
        '4'
    } else if d == 5 {
        '5'
    } else if d == 6 {
        '6'
    } else if d == 7 {
        '7'
    } else if d == 8 {
        '8'
    } else {
        '9'
    }
}

/// The decimal digits of `n`, highest first.
pub open spec fn decimal_digits(n: nat) -> Seq<char>
    decreases n,
{
    if n < 10 {
        seq![digit_char(n)]
    } else {
        decimal_digits(n / 10).push(digit_char(n % 10))
    }
}

/// `n` written in decimal, with a minus sign in front if it is negative.
pub open spec fn decimal(n: int) -> Seq<char> {
    if n < 0 {
        seq!['-'] + decimal_digits((-n) as nat)
    } else {
        decimal_digits(n as nat)
    }
}

/// Whether the characters of `b` in decimal can be matched one to one
/// with characters of `a` in decimal.
pub open spec fn digits_covered(a: int, b: int) -> bool {
    decimal(b).to_multiset().subset_of(decimal(a).to_multiset())
}

fn digit_to_char(d: u64) -> (c: char)
    requires
        d < 10,
    ensures
        c == digit_char(d as nat),
{
    if d == 0 {
        '0'
    } else if d == 1 {
        '1'
    } else if d == 2 {
        '2'
    } else if d == 3 {
        '3'
    } else if d == 4 {
        '4'
    } else if d == 5 {
        '5'
    } else if d == 6 {
        '6'
    } else if d == 7 {
        '7'
    } else if d == 8 {
        '8'
    } else {
        '9'
    }
}

/// Appends the decimal digits of `n` to `text`.
fn push_digits(n: u64, text: &mut Vec<char>)
    ensures
        final(text)@ == old(text)@ + decimal_digits(n as nat),
    decreases n,
{
    if n >= 10 {
        push_digits(n / 10, text);
    }
    text.push(digit_to_char(n % 10));
    proof {
        if n >= 10 {
            assert(text@ =~= old(text)@ + decimal_digits(n as nat));
        } else {
            assert(text@ =~= old(text)@ + decimal_digits(n as nat));
        }
    }
}

/// Writes `n` in decimal.
fn text_of(n: i32) -> (text: Vec<char>)
    ensures
        text@ == decimal(n as int),
{
    let mut text: Vec<char> = Vec::new();
    let wide: i64 = n as i64;
    if wide < 0 {
        text.push('-');
        push_digits((-wide) as u64, &mut text);
    } else {
        push_digits(wide as u64, &mut text);
    }
    proof {
        assert(text@ =~= decimal(n as int));
    }
    text
}

/// Tells whether the digits of `b` can be matched one to one with digits
/// of `a`: each digit occurs in `b` at most as often as it does in `a`.
/// For two numbers with equally many digits that means that each digit
/// occurs equally often in both.
pub fn same_frequency(a: i32, b: i32) -> (result: bool)
    ensures
        result == digits_covered(a as int, b as int),
{
    broadcast use vstd::seq_lib::group_to_multiset_ensures;

    let mut counter = text_of(a);
    let wanted = text_of(b);
    let ghost all = counter@.to_multiset();
    let mut i: usize = 0;
    while i < wanted.len()
        invariant
            i <= wanted@.len(),
            wanted@ == decimal(b as int),
            all == decimal(a as int).to_multiset(),
            counter@.to_multiset().add(wanted@.take(i as int).to_multiset()) == all,
        decreases wanted@.len() - i,
    {
        let c = wanted[i];
        let ghost before = counter@;
        proof {
            assert(wanted@.take(i + 1) =~= wanted@.take(i as int).push(c));
            wanted@.take(i as int).to_multiset_ensures();
            before.to_multiset_ensures();
            assert(wanted@.take(i + 1).to_multiset() =~= wanted@.take(i as int).to_multiset().insert(
                c,
            ));
            assert(wanted@ =~= wanted@.take(i + 1) + wanted@.skip(i + 1));
            lemma_multiset_commutative(wanted@.take(i + 1), wanted@.skip(i + 1));
        }
        let mut j: usize = 0;
        while j < counter.len() && counter[j] != c
            invariant
                j <= counter@.len(),
                counter@ == before,
                forall|k: int| 0 <= k < j ==> counter@[k] != c,
            decreases counter@.len() - j,
        {
            j += 1;
        }
        if j == counter.len() {
            proof {
                assert(!counter@.contains(c));
                assert(counter@.to_multiset().count(c) == 0);
                assert(wanted@.take(i + 1).to_multiset().count(c) > all.count(c));
                assert(wanted@.to_multiset().count(c) > all.count(c));
            }
            return false;
        }
        counter.remove(j);
        proof {
            assert(counter@ == before.remove(j as int));
            assert(counter@.to_multiset() =~= before.to_multiset().remove(c));
            assert(before.to_multiset().count(c) > 0);
            assert(counter@.to_multiset().add(wanted@.take(i + 1).to_multiset()) =~= all);
        }
        i += 1;
    }
    proof {
        assert(wanted@.take(i as int) =~= wanted@);
        assert(wanted@.to_multiset().subset_of(all));
    }
    true
}

} // verus!
