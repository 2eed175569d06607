use vstd::prelude::*;

verus! {

/// The sum of the elements of `s` from `lo` up to `hi`.
pub open spec fn range_sum(s: Seq<i32>, lo: int, hi: int) -> int
    decreases hi - lo,
{
    if hi <= lo {
        0
    } else {
        range_sum(s, lo, hi - 1) + s[hi - 1]
    }
}

/// Taking the first element out of a stretch takes it out of the sum.
pub proof fn lemma_range_sum_front(s: Seq<i32>, lo: int, hi: int)
    requires
        lo < hi,
    ensures
        range_sum(s, lo, hi) == s[lo] + range_sum(s, lo + 1, hi),
    decreases hi - lo,
{
    if hi - 1 > lo {
        lemma_range_sum_front(s, lo, hi - 1);
        assert(range_sum(s, lo + 1, hi) == range_sum(s, lo + 1, hi - 1) + s[hi - 1]);
    } else {
        assert(range_sum(s, lo, hi) == range_sum(s, lo, hi - 1) + s[hi - 1]);
        assert(range_sum(s, lo, lo) == 0);
        assert(range_sum(s, lo + 1, hi) == 0);
    }
}

/// Finds the greatest sum of `window_size` consecutive elements of `vec`.
///
/// Fails with the message "Invalid window size" if the window is empty or
/// longer than the vector.
pub fn max_sub_array_sum(vec: &Vec<i32>, window_size: usize) -> (result: Result<i32, &'static str>)
    requires
        forall|lo: int, hi: int|
            0 <= lo <= hi <= vec@.len() ==> i32::MIN <= #[trigger] range_sum(vec@, lo, hi)
                <= i32::MAX,
    ensures
        match result {
            Ok(best) => {
                &&& 0 < window_size <= vec@.len()
                &&& exists|start: int|
                    0 <= start <= vec@.len() - window_size && best == #[trigger] range_sum(
                        vec@,
                        start,
                        start + window_size,
                    )
                &&& forall|start: int|
                    0 <= start <= vec@.len() - window_size ==> #[trigger] range_sum(
                        vec@,
                        start,
                        start + window_size,
                    ) <= best
            },
            Err(msg) => (window_size == 0 || window_size > vec@.len()) && msg@
                == "Invalid window size"@,
        },
{
    if window_size == 0 || window_size > vec.len() {
        return Err("Invalid window size");
    }
    let mut curr_sub_sum: i32 = 0;
    let mut i: usize = 0;
    while i < window_size
        invariant
            i <= window_size <= vec@.len(),
            curr_sub_sum == range_sum(vec@, 0, i as int),
            forall|lo: int, hi: int|
                0 <= lo <= hi <= vec@.len() ==> i32::MIN <= #[trigger] range_sum(vec@, lo, hi)
                    <= i32::MAX,
        decreases window_size - i,
    {
        proof {
            assert(i32::MIN <= range_sum(vec@, 0, i + 1) <= i32::MAX);
        }
        curr_sub_sum += vec[i];
        i += 1;
    }
    let mut max_sub_sum: i32 = curr_sub_sum;
    let mut i: usize = 1;
    let ghost mut best_start: int = 0;
    while i < vec.len() - window_size + 1
        invariant
            0 < window_size <= vec@.len(),
            1 <= i <= vec@.len() - window_size + 1,
            curr_sub_sum == range_sum(vec@, i - 1, i - 1 + window_size),
            0 <= best_start < i,
            max_sub_sum == range_sum(vec@, best_start, best_start + window_size),
            forall|start: int|
                0 <= start < i ==> #[trigger] range_sum(vec@, start, start + window_size)
                    <= max_sub_sum,
            forall|lo: int, hi: int|
                0 <= lo <= hi <= vec@.len() ==> i32::MIN <= #[trigger] range_sum(vec@, lo, hi)
                    <= i32::MAX,
        decreases vec@.len() - i,
    {
        proof {
            lemma_range_sum_front(vec@, i - 1, i - 1 + window_size);
            assert(i32::MIN <= range_sum(vec@, i as int, i - 1 + window_size) <= i32::MAX);
            assert(i32::MIN <= range_sum(vec@, i as int, i + window_size) <= i32::MAX);
        }
        curr_sub_sum = curr_sub_sum - vec[i - 1] + vec[i + window_size - 1];
        if curr_sub_sum > max_sub_sum {
            max_sub_sum = curr_sub_sum;
            proof {
                best_start = i as int;
            }
        }
        i += 1;
    }
    Ok(max_sub_sum)
}

/// The sum of the elements of `s` from `lo` up to `hi`.
pub open spec fn stretch_total(s: Seq<u32>, lo: int, hi: int) -> int
    decreases hi - lo,
{
    if hi <= lo {
        0
    } else {
        stretch_total(s, lo, hi - 1) + s[hi - 1]
    }
}

/// Whether the elements of `s` from `lo` up to `hi` are a stretch that
/// adds up to `min_value` or more.
pub open spec fn reaches(s: Seq<u32>, lo: int, hi: int, min_value: u32) -> bool {
    0 <= lo < hi <= s.len() && stretch_total(s, lo, hi) >= min_value
}

/// A stretch is the sum of its two parts.
pub proof fn lemma_stretch_split(s: Seq<u32>, lo: int, mid: int, hi: int)
    requires
        lo <= mid <= hi,
    ensures
        stretch_total(s, lo, hi) == stretch_total(s, lo, mid) + stretch_total(s, mid, hi),
        stretch_total(s, lo, hi) >= 0,
    decreases hi - mid,
{
    if mid < hi {
        lemma_stretch_split(s, lo, mid, hi - 1);
    } else {
        lemma_stretch_nonnegative(s, lo, hi);
    }
}

proof fn lemma_stretch_nonnegative(s: Seq<u32>, lo: int, hi: int)
    ensures
        stretch_total(s, lo, hi) >= 0,
    decreases hi - lo,
{
    if lo < hi {
        lemma_stretch_nonnegative(s, lo, hi - 1);
    }
}

/// A stretch adds up to no less than a stretch inside it.
pub proof fn lemma_stretch_inside(s: Seq<u32>, lo: int, hi: int, a: int, b: int)
    requires
        lo <= a <= b <= hi,
    ensures
        stretch_total(s, a, b) <= stretch_total(s, lo, hi),
{
    lemma_stretch_split(s, lo, a, hi);
    lemma_stretch_split(s, a, b, hi);
    lemma_stretch_nonnegative(s, lo, a);
    lemma_stretch_nonnegative(s, b, hi);
}

/// Finds the length of the shortest stretch of `vec` that adds up to
/// `min_value` or more, if there is such a stretch.
///
/// A window is moved through the vector: while it adds up to less than
/// `min_value` it grows at its end, and once it adds up to enough its
/// length is noted and it shrinks at its start.
pub fn min_sub_array_len(vec: &Vec<u32>, min_value: u32) -> (result: Option<usize>)
    requires
        vec@.len() > 0,
        min_value > 0,
    ensures
        match result {
            Some(length) => {
                &&& exists|lo: int| #[trigger] reaches(vec@, lo, lo + length, min_value)
                &&& forall|lo: int, hi: int| #[trigger]
                    reaches(vec@, lo, hi, min_value) ==> hi - lo >= length
            },
            None => forall|lo: int, hi: int| !#[trigger] reaches(vec@, lo, hi, min_value),
        },
{
    let n = vec.len();
    let ghost s = vec@;
    let mut window_min_size: Option<usize> = None;
    let mut window_sum: u64 = vec[0] as u64;
    let mut window_start: usize = 0;
    let mut window_end: usize = 0;
    let ghost mut shortest: int = 0;
    proof {
        assert(stretch_total(s, 0, 1) == stretch_total(s, 0, 0) + s[0]);
        assert(stretch_total(s, 0, 0) == 0);
    }
    // The window holds the elements from `window_start` to `window_end`,
    // both included. It is done once it has reached the end and adds up
    // to less than `min_value`.
    while !(window_sum < min_value as u64 && window_end == n - 1)
        invariant
            n == s.len(),
            s == vec@,
            min_value > 0,
            window_start <= window_end + 1 <= n,
            window_sum == stretch_total(s, window_start as int, window_end + 1),
            window_sum < min_value + 0x1_0000_0000,
            forall|b: int|
                window_start < b <= window_end ==> #[trigger] stretch_total(
                    s,
                    window_start as int,
                    b,
                ) < min_value,
            forall|a: int, b: int|
                0 <= a < window_start && #[trigger] reaches(s, a, b, min_value) ==> (
                window_min_size is Some && window_min_size->0 <= b - a),
            window_min_size is Some ==> reaches(
                s,
                shortest,
                shortest + window_min_size->0,
                min_value,
            ),
        decreases 2 * n - window_start - window_end,
    {
        if window_sum < min_value as u64 && window_end < n - 1 {
            // Too little, and there is room: the window grows.
            window_end += 1;
            window_sum += vec[window_end] as u64;
        } else {
            // Enough: the length is noted and the window shrinks.
            let size = window_end - window_start + 1;
            proof {
                assert(reaches(s, window_start as int, window_start + size, min_value));
                assert forall|b: int| #[trigger]
                    reaches(s, window_start as int, b, min_value) implies size <= b
                    - window_start by {
                    if b <= window_end {
                        assert(stretch_total(s, window_start as int, b) < min_value);
                    }
                }
                lemma_stretch_split(s, window_start as int, window_start + 1, window_end + 1);
                assert(stretch_total(s, window_start as int, window_start + 1) == stretch_total(
                    s,
                    window_start as int,
                    window_start as int,
                ) + s[window_start as int]);
                assert(stretch_total(s, window_start as int, window_start as int) == 0);
                assert forall|b: int| window_start + 1 < b <= window_end implies #[trigger] stretch_total(
                    s,
                    window_start + 1,
                    b,
                ) < min_value by {
                    lemma_stretch_inside(s, window_start as int, b, window_start + 1, b);
                    assert(stretch_total(s, window_start as int, b) < min_value);
                }
            }
            window_min_size = match window_min_size {
                Some(known) => if known <= size {
                    Some(known)
                } else {
                    Some(size)
                },
                None => Some(size),
            };
            proof {
                if window_min_size == Some(size) {
                    shortest = window_start as int;
                }
            }
            window_sum -= vec[window_start] as u64;
            window_start += 1;
        }
    }
    proof {
        assert forall|a: int, b: int| window_start <= a && #[trigger] reaches(
            s,
            a,
            b,
            min_value,
        ) implies false by {
            lemma_stretch_inside(s, window_start as int, n as int, a, b);
        }
    }
    window_min_size
}

/// No character stands twice in `s` from `lo` up to `hi`.
pub open spec fn no_repeats(s: Seq<char>, lo: int, hi: int) -> bool {
    forall|a: int, b: int| lo <= a < b < hi ==> s[a] != s[b]
}

/// `length` is the length of a longest stretch of `s` in which no
/// character stands twice.
pub open spec fn longest_without_repeats(s: Seq<char>, length: int) -> bool {
    &&& exists|lo: int| 0 <= lo && #[trigger] no_repeats(s, lo, lo + length) && lo + length <= s.len()
    &&& forall|lo: int, hi: int|
        0 <= lo <= hi <= s.len() && #[trigger] no_repeats(s, lo, hi) ==> hi - lo <= length
}

/// The table holds, for each character met so far, the last place at
/// which it stood.
spec fn last_places(table: Seq<(char, usize)>, s: Seq<char>, i: int) -> bool {
    &&& forall|k: int|
        0 <= k < table.len() ==> (#[trigger] table[k]).1 < i && s[table[k].1 as int] == table[k].0
            && forall|j: int| table[k].1 < j < i ==> s[j] != table[k].0
    &&& forall|j: int|
        #![trigger s[j]]
        0 <= j < i ==> exists|k: int| 0 <= k < table.len() && (#[trigger] table[k]).0 == s[j]
    &&& forall|a: int, b: int|
        0 <= a < b < table.len() ==> (#[trigger] table[a]).0 != (#[trigger] table[b]).0
}

/// Finds the length of a longest stretch of `str` in which no character
/// stands twice: the stretch under view grows by one character at a time
/// and starts anew after the last place of that character.
pub fn find_longest_substring(str: &str) -> (longest: usize)
    ensures
        longest_without_repeats(str@, longest as int),
{
    let length = str.unicode_len();
    let mut start: usize = 0;
    let mut longest: usize = 0;
    let mut seen: Vec<(char, usize)> = Vec::new();
    let mut i: usize = 0;
    let ghost mut best_lo: int = 0;
    while i < length
        invariant
            length == str@.len(),
            i <= length,
            start <= i,
            last_places(seen@, str@, i as int),
            no_repeats(str@, start as int, i as int),
            forall|lo: int| 0 <= lo < start ==> !#[trigger] no_repeats(str@, lo, i as int),
            0 <= best_lo,
            best_lo + longest <= i,
            no_repeats(str@, best_lo, best_lo + longest),
            forall|lo: int, hi: int|
                0 <= lo <= hi <= i && #[trigger] no_repeats(str@, lo, hi) ==> hi - lo <= longest,
        decreases length - i,
    {
        let c = str.get_char(i);
        let ghost table = seen@;
        let ghost old_start = start as int;
        let mut k: usize = 0;
        let mut found: Option<usize> = None;
        while k < seen.len() && found.is_none()
            invariant
                seen@ == table,
                k <= table.len(),
                forall|j: int| 0 <= j < k && found.is_none() ==> (#[trigger] table[j]).0 != c,
                found.is_some() ==> found.unwrap() < table.len() && table[found.unwrap() as int].0
                    == c,
            decreases table.len() - k, if found.is_none() {
                    1int
                } else {
                    0int
                },
        {
            if seen[k].0 == c {
                found = Some(k);
            } else {
                k += 1;
            }
        }
        match found {
            Some(position) => {
                let last = seen[position].1;
                if last + 1 > start {
                    start = last + 1;
                }
                seen.set(position, (c, i));
            },
            None => {
                seen.push((c, i));
            },
        }
        proof {
            let s = str@;
            // The window from `start` to `i + 1` holds no character twice.
            assert forall|a: int, b: int| start <= a < b < i + 1 implies s[a] != s[b] by {
                if b == i && s[a] == c {
                    let t = choose|t: int| 0 <= t < table.len() && (#[trigger] table[t]).0 == s[a];
                    if found.is_some() {
                        assert(t == found.unwrap());
                    }
                }
            }
            // No window that starts earlier does.
            assert forall|lo: int| 0 <= lo < start implies !#[trigger] no_repeats(
                s,
                lo,
                i + 1,
            ) by {
                if lo < old_start {
                    assert(!no_repeats(s, lo, i as int));
                } else {
                    let last = table[found.unwrap() as int].1 as int;
                    assert(lo <= last < i && s[last] == s[i as int]);
                }
            }
            // The table is up to date.
            let after = seen@;
            assert forall|t: int| 0 <= t < after.len() implies (#[trigger] after[t]).1 < i + 1
                && s[after[t].1 as int] == after[t].0 && forall|j: int|
                after[t].1 < j < i + 1 ==> s[j] != after[t].0 by {
                if after[t].1 != i {
                    assert(after[t] == table[t]);
                    assert(table[t].0 != c);
                }
            }
            assert forall|j: int|
                #![trigger s[j]]
                0 <= j < i + 1 implies exists|t: int|
                0 <= t < after.len() && (#[trigger] after[t]).0 == s[j] by {
                if s[j] == c {
                    if found.is_some() {
                        assert(after[found.unwrap() as int].0 == c);
                    } else {
                        assert(after[table.len() as int].0 == c);
                    }
                } else {
                    let t = choose|t: int| 0 <= t < table.len() && (#[trigger] table[t]).0 == s[j];
                    assert(after[t] == table[t]);
                }
            }
            assert forall|a: int, b: int| 0 <= a < b < after.len() implies (#[trigger] after[a]).0
                != (#[trigger] after[b]).0 by {
                if a < table.len() && b < table.len() {
                    assert(table[a].0 != table[b].0);
                }
            }
        }
        if i - start + 1 > longest {
            longest = i - start + 1;
            proof {
                best_lo = start as int;
            }
        }
        proof {
            assert forall|lo: int, hi: int|
                0 <= lo <= hi <= i + 1 && #[trigger] no_repeats(str@, lo, hi) implies hi - lo
                <= longest by {
                if hi == i + 1 && lo < start {
                    assert(!no_repeats(str@, lo, i + 1));
                }
            }
        }
        i += 1;
    }
    longest
}

} // verus!
