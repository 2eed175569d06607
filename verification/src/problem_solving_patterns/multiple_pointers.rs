use vstd::prelude::*;
use super::divide_and_conquer::ascending;

verus! {

/// Whether two elements of `s` at different places add up to zero.
pub open spec fn has_zero_pair(s: Seq<i32>) -> bool {
    exists|i: int, j: int| 0 <= i < j < s.len() && #[trigger] s[i] + #[trigger] s[j] == 0
}

/// Looks in the sorted vector `vec` for two elements at different places
/// that add up to zero, with one pointer coming from each end, and
/// returns such a pair, lesser element first.
pub fn sum_zero(vec: Vec<i32>) -> (found: Option<(i32, i32)>)
    requires
        ascending(vec@),
        forall|i: int, j: int|
            0 <= i < vec@.len() && 0 <= j < vec@.len() ==> i32::MIN <= #[trigger] vec@[i]
                + #[trigger] vec@[j] <= i32::MAX,
    ensures
        match found {
            Some((a, b)) => a + b == 0 && exists|i: int, j: int|
                0 <= i < j < vec@.len() && #[trigger] vec@[i] == a && #[trigger] vec@[j] == b,
            None => !has_zero_pair(vec@),
        },
{
    if vec.len() == 0 {
        return None;
    }
    let mut left_pointer: usize = 0;
    let mut right_pointer: usize = vec.len() - 1;
    while left_pointer < right_pointer
        invariant
            ascending(vec@),
            forall|i: int, j: int|
                0 <= i < vec@.len() && 0 <= j < vec@.len() ==> i32::MIN <= #[trigger] vec@[i]
                    + #[trigger] vec@[j] <= i32::MAX,
            left_pointer <= vec@.len(),
            right_pointer < vec@.len(),
            forall|i: int, j: int|
                0 <= i < j < vec@.len() && (i < left_pointer || j > right_pointer)
                    ==> #[trigger] vec@[i] + #[trigger] vec@[j] != 0,
        decreases right_pointer + 1 - left_pointer,
    {
        if vec[left_pointer] + vec[right_pointer] == 0 {
            return Some((vec[left_pointer], vec[right_pointer]));
        }
        if vec[left_pointer] + vec[right_pointer] > 0 {
            proof {
                assert forall|i: int, j: int|
                    0 <= i < j < vec@.len() && (i < left_pointer || j > right_pointer
                        - 1) implies #[trigger] vec@[i] + #[trigger] vec@[j] != 0 by {
                    if i >= left_pointer && j == right_pointer {
                        assert(vec@[left_pointer as int] <= vec@[i]);
                    }
                }
            }
            right_pointer = right_pointer - 1;
        }
        if vec[left_pointer] + vec[right_pointer] < 0 {
            proof {
                assert forall|i: int, j: int|
                    0 <= i < j < vec@.len() && (i < left_pointer + 1 || j
                        > right_pointer) implies #[trigger] vec@[i] + #[trigger] vec@[j] != 0 by {
                    if i == left_pointer && j <= right_pointer {
                        assert(vec@[j] <= vec@[right_pointer as int]);
                    }
                }
            }
            left_pointer = left_pointer + 1;
        }
    }
    None
}

/// `places` embeds `short` into `long`: it gives for each character of
/// `short` a place in `long` at which that character stands, and the
/// places go up.
pub open spec fn embedding(places: Seq<int>, short: Seq<char>, long: Seq<char>) -> bool {
    &&& places.len() == short.len()
    &&& forall|k: int| 0 <= k < places.len() ==> 0 <= #[trigger] places[k] < long.len() && long[places[k]] == short[k]
    &&& forall|a: int, b: int| 0 <= a < b < places.len() ==> #[trigger] places[a] < #[trigger] places[b]
}

/// `short` can be had from `long` by leaving characters out.
pub open spec fn subsequence_of(short: Seq<char>, long: Seq<char>) -> bool {
    exists|places: Seq<int>| embedding(places, short, long)
}

/// An embedding of the first `k` characters of `short` into the first
/// `j + 1` characters of `long` gives an embedding of all but the last of
/// them into the first `j` characters; it is itself one into the first `j`
/// characters unless it uses the last place.
proof fn lemma_embedding_shorter(places: Seq<int>, short: Seq<char>, long: Seq<char>, k: int, j: int)
    requires
        0 < k <= short.len(),
        0 <= j < long.len(),
        embedding(places, short.take(k), long.take(j + 1)),
    ensures
        embedding(places.drop_last(), short.take(k - 1), long.take(j)),
        places[k - 1] < j ==> embedding(places, short.take(k), long.take(j)),
        places[k - 1] == j ==> short[k - 1] == long[j],
{
    let fewer = places.drop_last();
    assert forall|i: int| 0 <= i < fewer.len() implies 0 <= #[trigger] fewer[i] < long.take(j).len()
        && long.take(j)[fewer[i]] == short.take(k - 1)[i] by {
        assert(fewer[i] == places[i]);
        assert(places[i] < places[k - 1]);
        assert(long.take(j + 1)[places[i]] == short.take(k)[i]);
    }
    assert forall|a: int, b: int| 0 <= a < b < fewer.len() implies #[trigger] fewer[a]
        < #[trigger] fewer[b] by {
        assert(places[a] < places[b]);
    }
    if places[k - 1] < j {
        assert forall|i: int| 0 <= i < places.len() implies 0 <= #[trigger] places[i]
            < long.take(j).len() && long.take(j)[places[i]] == short.take(k)[i] by {
            if i < k - 1 {
                assert(places[i] < places[k - 1]);
            }
            assert(long.take(j + 1)[places[i]] == short.take(k)[i]);
        }
    }
    if places[k - 1] == j {
        assert(long.take(j + 1)[places[k - 1]] == short.take(k)[k - 1]);
    }
}

/// Tells whether `str1` is not empty and can be had from `str2` by
/// leaving characters out: the characters of `str2` are matched in turn
/// against the first character of `str1` that is not matched yet.
///
/// The strings are measured in bytes, so they must be made of ASCII
/// characters only.
pub fn is_subsequence(str1: &str, str2: &str) -> (result: bool)
    requires
        str1.is_ascii(),
        str2.is_ascii(),
    ensures
        result == (str1@.len() > 0 && subsequence_of(str1@, str2@)),
{
    let length1 = str1.unicode_len();
    let length2 = str2.unicode_len();
    if length1 == 0 {
        return false;
    }
    let mut i: usize = 0;
    let mut j: usize = 0;
    let ghost mut places: Seq<int> = Seq::empty();
    proof {
        assert(str1@.take(0) =~= Seq::<char>::empty());
        assert forall|other: Seq<int>, k: int|
            0 <= k <= length1 && #[trigger] embedding(
                other,
                str1@.take(k),
                str2@.take(0),
            ) implies k <= 0 by {
            if k > 0 {
                assert(0 <= other[0] < str2@.take(0).len());
            }
        }
    }
    while j < length2
        invariant
            length1 == str1@.len(),
            length2 == str2@.len(),
            i < length1,
            j <= length2,
            i <= j,
            embedding(places, str1@.take(i as int), str2@.take(j as int)),
            forall|other: Seq<int>, k: int|
                0 <= k <= length1 && #[trigger] embedding(
                    other,
                    str1@.take(k),
                    str2@.take(j as int),
                ) ==> k <= i,
        decreases length2 - j,
    {
        let ghost before = places;
        let ghost matched = i as int;
        let hit = str1.get_char(i) == str2.get_char(j);
        if hit {
            proof {
                places = before.push(j as int);
                assert forall|k: int| 0 <= k < places.len() implies 0 <= #[trigger] places[k]
                    < str2@.take(j + 1).len() && str2@.take(j + 1)[places[k]] == str1@.take(
                    i + 1,
                )[k] by {
                    if k < before.len() {
                        assert(places[k] == before[k]);
                        assert(str2@.take(j as int)[before[k]] == str1@.take(i as int)[k]);
                    }
                }
                assert forall|a: int, b: int| 0 <= a < b < places.len() implies #[trigger] places[a]
                    < #[trigger] places[b] by {
                    assert(places[a] == before[a]);
                    if b < before.len() {
                        assert(places[b] == before[b]);
                    }
                }
            }
            i += 1;
        } else {
            proof {
                assert forall|k: int| 0 <= k < places.len() implies 0 <= #[trigger] places[k]
                    < str2@.take(j + 1).len() && str2@.take(j + 1)[places[k]] == str1@.take(
                    i as int,
                )[k] by {
                    assert(str2@.take(j as int)[places[k]] == str1@.take(i as int)[k]);
                }
            }
        }
        proof {
            assert forall|other: Seq<int>, k: int|
                0 <= k <= length1 && #[trigger] embedding(
                    other,
                    str1@.take(k),
                    str2@.take(j + 1),
                ) implies k <= i by {
                if k > 0 {
                    lemma_embedding_shorter(other, str1@, str2@, k, j as int);
                    assert(k - 1 <= matched);
                    if other[k - 1] < j {
                        assert(k <= matched);
                    } else if k - 1 == matched {
                        assert(str1@[matched] == str2@[j as int]);
                    }
                }
            }
        }
        if i == length1 {
            proof {
                assert(str1@.take(i as int) =~= str1@);
                assert forall|k: int| 0 <= k < places.len() implies 0 <= #[trigger] places[k]
                    < str2@.len() && str2@[places[k]] == str1@[k] by {
                    assert(str2@.take(j + 1)[places[k]] == str1@.take(i as int)[k]);
                }
                assert(embedding(places, str1@, str2@));
            }
            return true;
        }
        j += 1;
    }
    proof {
        assert(str2@.take(j as int) =~= str2@);
        assert(str1@.take(length1 as int) =~= str1@);
        if subsequence_of(str1@, str2@) {
            let other = choose|other: Seq<int>| embedding(other, str1@, str2@);
            assert(embedding(other, str1@.take(length1 as int), str2@.take(j as int)));
        }
    }
    false
}

} // verus!
