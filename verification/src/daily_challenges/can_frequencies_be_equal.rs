use vstd::prelude::*;

verus! {

/// How often `c` occurs in `s`.
pub open spec fn frequency(s: Seq<char>, c: char) -> nat {
    s.to_multiset().count(c)
}

/// Whether `c` occurs in `s` exactly once more than each of the other
/// characters, of which there is at least one.
pub open spec fn stands_out(s: Seq<char>, c: char) -> bool {
    &&& s.contains(c)
    &&& exists|other: char| #[trigger] s.contains(other) && other != c
    &&& forall|other: char|
        #[trigger] s.contains(other) && other != c ==> frequency(s, other) + 1 == frequency(s, c)
}

/// Whether one character of `s` occurs exactly once more than each of
/// the others: taking one occurrence of that character away then leaves
/// every character equally often.
pub open spec fn one_too_many(s: Seq<char>) -> bool {
    exists|c: char| stands_out(s, c)
}

/// `table` counts the characters of `s`: it has one entry for each
/// character that occurs, with the number of its occurrences.
spec fn counts(table: Seq<(char, usize)>, s: Seq<char>) -> bool {
    &&& forall|a: int, b: int|
        0 <= a < table.len() && 0 <= b < table.len() && a != b ==> table[a].0 != table[b].0
    &&& forall|a: int|
        0 <= a < table.len() ==> s.contains((#[trigger] table[a]).0) && table[a].1 == frequency(
            s,
            table[a].0,
        )
    &&& forall|c: char| s.contains(c) ==> exists|a: int| 0 <= a < table.len() && (#[trigger] table[a]).0 == c
}

/// What one more character does to the frequencies.
proof fn lemma_frequency_push(s: Seq<char>, c: char, other: char)
    ensures
        frequency(s.push(c), other) == frequency(s, other) + if other == c {
            1nat
        } else {
            0nat
        },
        frequency(s, other) <= s.len(),
        s.contains(other) <==> frequency(s, other) > 0,
        s.push(c).contains(other) <==> s.contains(other) || other == c,
{
    s.to_multiset_ensures();
    s.push(c).to_multiset_ensures();
    assert(s.push(c).to_multiset() =~= s.to_multiset().insert(c));
    vstd::multiset::axiom_count_le_len(s.to_multiset(), other);
}

/// Counts how often each character of `input` occurs.
fn count_characters(input: &str) -> (table: Vec<(char, usize)>)
    ensures
        counts(table@, input@),
{
    let n = input.unicode_len();
    let ghost s = input@;
    let mut table: Vec<(char, usize)> = Vec::new();
    let mut i: usize = 0;
    proof {
        assert(s.take(0) =~= Seq::<char>::empty());
        assert forall|c: char| !s.take(0).contains(c) by {}
    }
    while i < n
        invariant
            i <= n,
            n == s.len(),
            s == input@,
            counts(table@, s.take(i as int)),
        decreases n - i,
    {
        let c = input.get_char(i);
        let ghost before = table@;
        let ghost seen = s.take(i as int);
        proof {
            assert(s.take(i + 1) =~= seen.push(c));
            assert forall|other: char|
                frequency(seen.push(c), other) == frequency(seen, other) + if other == c {
                    1nat
                } else {
                    0nat
                } && frequency(seen, other) <= seen.len() && (seen.contains(other) <==> frequency(
                    seen,
                    other,
                ) > 0) && (#[trigger] seen.push(c).contains(other) <==> seen.contains(other)
                    || other == c) by {
                lemma_frequency_push(seen, c, other);
            }
        }
        let mut j: usize = 0;
        while j < table.len() && table[j].0 != c
            invariant
                j <= table@.len(),
                table@ == before,
                forall|k: int| 0 <= k < j ==> table@[k].0 != c,
            decreases table@.len() - j,
        {
            j += 1;
        }
        if j < table.len() {
            let entry = table[j];
            proof {
                lemma_frequency_push(seen, c, c);
            }
            table.set(j, (entry.0, entry.1 + 1));
            proof {
                let after = table@;
                let grown = seen.push(c);
                assert forall|a: int| 0 <= a < after.len() implies grown.contains(
                    (#[trigger] after[a]).0,
                ) && after[a].1 == frequency(grown, after[a].0) by {
                    lemma_frequency_push(seen, c, before[a].0);
                    assert(seen.contains(before[a].0));
                }
                assert forall|other: char| grown.contains(other) implies exists|a: int|
                    0 <= a < after.len() && (#[trigger] after[a]).0 == other by {
                    lemma_frequency_push(seen, c, other);
                    if other == c {
                        assert(after[j as int].0 == c);
                    } else {
                        let a = choose|a: int| 0 <= a < before.len() && (#[trigger] before[a]).0 == other;
                        assert(after[a].0 == other);
                    }
                }
            }
        } else {
            table.push((c, 1));
            proof {
                let after = table@;
                let grown = seen.push(c);
                lemma_frequency_push(seen, c, c);
                if seen.contains(c) {
                    let a = choose|a: int| 0 <= a < before.len() && (#[trigger] before[a]).0 == c;
                    assert(false);
                }
                assert forall|a: int| 0 <= a < after.len() implies grown.contains(
                    (#[trigger] after[a]).0,
                ) && after[a].1 == frequency(grown, after[a].0) by {
                    if a < before.len() {
                        lemma_frequency_push(seen, c, before[a].0);
                        assert(seen.contains(before[a].0));
                    }
                }
                assert forall|other: char| grown.contains(other) implies exists|a: int|
                    0 <= a < after.len() && (#[trigger] after[a]).0 == other by {
                    lemma_frequency_push(seen, c, other);
                    if other == c {
                        assert(after[before.len() as int].0 == c);
                    } else {
                        let a = choose|a: int| 0 <= a < before.len() && (#[trigger] before[a]).0 == other;
                        assert(after[a].0 == other);
                    }
                }
            }
        }
        i += 1;
    }
    proof {
        assert(s.take(n as int) =~= s);
    }
    table
}

/// Tells whether one character of `input` occurs exactly once more than
/// each of the others, so that taking one occurrence of it away leaves
/// every character equally often.
///
/// The answer is `false` where nothing needs to be taken away, and where
/// taking away a character that occurs only once would do.
pub fn can_frequencies_be_equal(input: &str) -> (result: bool)
    ensures
        result == one_too_many(input@),
{
    let ghost s = input@;
    let table = count_characters(input);
    if table.len() < 2 {
        proof {
            if one_too_many(s) {
                let c = choose|c: char| stands_out(s, c);
                let other = choose|other: char| #[trigger] s.contains(other) && other != c;
                let a = choose|a: int| 0 <= a < table@.len() && (#[trigger] table@[a]).0 == c;
                let b = choose|b: int| 0 <= b < table@.len() && (#[trigger] table@[b]).0 == other;
                assert(a != b);
            }
        }
        return false;
    }
    // Find the character that occurs most often.
    let mut most: usize = 0;
    let mut i: usize = 1;
    while i < table.len()
        invariant
            1 <= i <= table@.len(),
            most < i,
            forall|k: int| 0 <= k < i ==> table@[k].1 <= table@[most as int].1,
        decreases table@.len() - i,
    {
        if table[i].1 > table[most].1 {
            most = i;
        }
        i += 1;
    }
    // Each of the others has to occur exactly once less.
    let top = table[most].1;
    proof {
        assert(s.contains(table@[most as int].0));
        lemma_frequency_push(s, table@[most as int].0, table@[most as int].0);
    }
    let mut i: usize = 0;
    while i < table.len()
        invariant
            i <= table@.len(),
            most < table@.len(),
            top == table@[most as int].1,
            top >= 1,
            forall|k: int| 0 <= k < i && k != most ==> table@[k].1 == top - 1,
        ensures
            i < table@.len() ==> i != most && table@[i as int].1 != top - 1,
            i >= table@.len() ==> forall|k: int|
                0 <= k < table@.len() && k != most ==> table@[k].1 == top - 1,
        decreases table@.len() - i,
    {
        if i != most && table[i].1 != top - 1 {
            break ;
        }
        i += 1;
    }
    let ghost m = most as int;
    if i < table.len() {
        proof {
            if one_too_many(s) {
                let c = choose|c: char| stands_out(s, c);
                let a = choose|a: int| 0 <= a < table@.len() && (#[trigger] table@[a]).0 == c;
                if m != a {
                    assert(s.contains(table@[m].0));
                    assert(table@[m].1 + 1 == table@[a].1);
                    assert(table@[a].1 <= table@[m].1);
                }
                assert(s.contains(table@[i as int].0));
                assert(table@[i as int].0 != c);
            }
        }
        false
    } else {
        proof {
            let c = table@[m].0;
            let b = if m == 0 {
                1int
            } else {
                0int
            };
            assert(s.contains(table@[b].0) && table@[b].0 != c);
            assert forall|other: char|
                #[trigger] s.contains(other) && other != c implies frequency(s, other) + 1
                == frequency(s, c) by {
                let a = choose|a: int| 0 <= a < table@.len() && (#[trigger] table@[a]).0 == other;
                assert(a != m);
            }
            assert(stands_out(s, c));
        }
        true
    }
}

} // verus!
