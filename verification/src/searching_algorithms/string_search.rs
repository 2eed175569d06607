use vstd::prelude::*;

verus! {

/// `a` comes after `b` in the dictionary order of strings: at the first
/// place at which they differ `a` has the greater character, or `b` ends
/// first.
pub open spec fn comes_after(a: Seq<char>, b: Seq<char>) -> bool
    decreases a.len(),
{
    if a.len() == 0 {
        false
    } else if b.len() == 0 {
        true
    } else if a[0] != b[0] {
        a[0] as u32 > b[0] as u32
    } else {
        comes_after(a.drop_first(), b.drop_first())
    }
}

/// Whether `sub` stands in `s` at position `i`.
pub open spec fn stands_at(s: Seq<char>, sub: Seq<char>, i: int) -> bool {
    0 <= i && i + sub.len() <= s.len() && s.subrange(i, i + sub.len()) == sub
}

/// The number of positions below `k` at which `sub` stands in `s`.
pub open spec fn count_below(s: Seq<char>, sub: Seq<char>, k: int) -> int
    decreases k,
{
    if k <= 0 {
        0
    } else {
        count_below(s, sub, k - 1) + if stands_at(s, sub, k - 1) {
            1int
        } else {
            0int
        }
    }
}

/// There are no more positions at which a string stands than positions.
pub proof fn lemma_count_bounds(s: Seq<char>, sub: Seq<char>, k: int)
    requires
        k >= 0,
    ensures
        0 <= count_below(s, sub, k) <= k,
    decreases k,
{
    if k > 0 {
        lemma_count_bounds(s, sub, k - 1);
    }
}

/// Two strings that agree on their first `i` characters compare as what
/// follows those characters.
proof fn lemma_comes_after_skip(a: Seq<char>, b: Seq<char>, i: int)
    requires
        0 <= i <= a.len(),
        i <= b.len(),
        forall|k: int| 0 <= k < i ==> a[k] == b[k],
    ensures
        comes_after(a, b) == comes_after(a.skip(i), b.skip(i)),
    decreases i,
{
    if i == 0 {
        assert(a.skip(0) =~= a);
        assert(b.skip(0) =~= b);
    } else {
        assert(a[0] == b[0]);
        assert forall|k: int| 0 <= k < i - 1 implies a.drop_first()[k] == b.drop_first()[k] by {
            assert(a[k + 1] == b[k + 1]);
        }
        lemma_comes_after_skip(a.drop_first(), b.drop_first(), i - 1);
        assert(a.drop_first().skip(i - 1) =~= a.skip(i));
        assert(b.drop_first().skip(i - 1) =~= b.skip(i));
    }
}

/// Tells whether `a` comes after `b` in the dictionary order of strings.
pub fn is_after(a: &str, b: &str) -> (result: bool)
    ensures
        result == comes_after(a@, b@),
{
    let length_a = a.unicode_len();
    let length_b = b.unicode_len();
    let mut i: usize = 0;
    while i < length_a && i < length_b
        invariant
            length_a == a@.len(),
            length_b == b@.len(),
            i <= length_a,
            i <= length_b,
            forall|k: int| 0 <= k < i ==> a@[k] == b@[k],
        decreases length_a - i,
    {
        let x = a.get_char(i);
        let y = b.get_char(i);
        if x != y {
            proof {
                lemma_comes_after_skip(a@, b@, i as int);
                assert(a@.skip(i as int)[0] == x);
                assert(b@.skip(i as int)[0] == y);
            }
            return x as u32 > y as u32;
        }
        i += 1;
    }
    proof {
        lemma_comes_after_skip(a@, b@, i as int);
    }
    i < length_a
}

/// Counts the positions at which `sub_str` stands in `str`.
///
/// Nothing is counted if `sub_str` comes after `str` in the dictionary
/// order; otherwise `sub_str` must not be longer than `str`.
pub fn count_str_match(str: &str, sub_str: &str) -> (count: i32)
    requires
        !comes_after(sub_str@, str@) ==> sub_str@.len() <= str@.len(),
        str@.len() < i32::MAX,
    ensures
        count == if comes_after(sub_str@, str@) {
            0
        } else {
            count_below(str@, sub_str@, str@.len() - sub_str@.len() + 1)
        },
{
    if is_after(sub_str, str) {
        return 0;
    }
    let length = str.unicode_len();
    let sub_length = sub_str.unicode_len();
    let last = length - sub_length;
    let mut counter: i32 = 0;
    let mut i: usize = 0;
    while i <= last
        invariant
            length == str@.len(),
            sub_length == sub_str@.len(),
            last == length - sub_length,
            length < i32::MAX,
            i <= last + 1,
            counter == count_below(str@, sub_str@, i as int),
        decreases last + 1 - i,
    {
        let mut j: usize = 0;
        let mut same = true;
        while j < sub_length && same
            invariant
                length == str@.len(),
                sub_length == sub_str@.len(),
                i + sub_length <= length,
                j <= sub_length,
                same ==> forall|k: int| 0 <= k < j ==> str@[i + k] == sub_str@[k],
                !same ==> !stands_at(str@, sub_str@, i as int),
            decreases sub_length - j, if same {
                    1int
                } else {
                    0int
                },
        {
            if str.get_char(i + j) == sub_str.get_char(j) {
                j += 1;
            } else {
                proof {
                    if stands_at(str@, sub_str@, i as int) {
                        assert(str@.subrange(i as int, i + sub_length)[j as int] == sub_str@[j as int]);
                    }
                }
                same = false;
            }
        }
        proof {
            lemma_count_bounds(str@, sub_str@, i as int);
            if same {
                assert(str@.subrange(i as int, i + sub_length) =~= sub_str@);
            }
        }
        if same {
            counter += 1;
        }
        i += 1;
    }
    counter
}

} // verus!
