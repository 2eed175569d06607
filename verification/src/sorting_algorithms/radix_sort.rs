//! Radix sort of unsigned integers: one stable counting sort for each
//! decimal digit, from the lowest digit to the highest digit of the
//! greatest element.

use vstd::prelude::*;
use vstd::arithmetic::div_mod::{
    lemma_div_denominator, lemma_fundamental_div_mod, lemma_mod_bound, lemma_mod_breakdown,
    lemma_small_mod,
};
use vstd::seq_lib::lemma_multiset_commutative;

verus! {

/// Ten to the power of `e`.
pub open spec fn pow10(e: nat) -> nat
    decreases e,
{
    if e == 0 {
        1
    } else {
        10 * pow10((e - 1) as nat)
    }
}

/// The decimal digit of `num` at `position`, where position 0 is the
/// lowest digit.
pub open spec fn digit(num: nat, position: nat) -> nat {
    (num / pow10(position)) % 10
}

/// What the digits of `num` below `position` amount to.
pub open spec fn low(num: nat, position: nat) -> nat {
    num % pow10(position)
}

/// `s` is in ascending order.
pub open spec fn ascending(s: Seq<usize>) -> bool {
    forall|a: int, b: int| 0 <= a < b < s.len() ==> s[a] <= s[b]
}

/// `s` is in ascending order if only the digits below `position` are
/// looked at.
pub open spec fn ascending_below(s: Seq<usize>, position: nat) -> bool {
    forall|a: int, b: int|
        0 <= a < b < s.len() ==> low(s[a] as nat, position) <= low(s[b] as nat, position)
}

/// The elements of `s` whose digit at `position` is `d`, in the order in
/// which they stand in `s`.
pub open spec fn bucket(s: Seq<usize>, position: nat, d: nat) -> Seq<usize>
    decreases s.len(),
{
    if s.len() == 0 {
        Seq::empty()
    } else {
        let rest = bucket(s.drop_last(), position, d);
        if digit(s.last() as nat, position) == d {
            rest.push(s.last())
        } else {
            rest
        }
    }
}

/// The elements of `s` whose digit at `position` is less than `e`: those
/// with digit 0 first, then those with digit 1, and so on, each group in
/// the order in which it stands in `s`. With 10 for `e` this is `s`
/// sorted by that digit, equal digits staying in order.
pub open spec fn gathered(s: Seq<usize>, position: nat, e: nat) -> Seq<usize>
    decreases e,
{
    if e == 0 {
        Seq::empty()
    } else {
        gathered(s, position, (e - 1) as nat) + bucket(s, position, (e - 1) as nat)
    }
}

pub proof fn lemma_pow10_positive(e: nat)
    ensures
        pow10(e) > 0,
    decreases e,
{
    if e > 0 {
        lemma_pow10_positive((e - 1) as nat);
    }
}

/// Once a number has run out of digits it has none further up.
proof fn lemma_digits_run_out(num: nat, k: nat, position: nat)
    requires
        num / pow10(k) == 0,
        k <= position,
    ensures
        num / pow10(position) == 0,
    decreases position - k,
{
    if k < position {
        lemma_pow10_positive(k);
        lemma_div_denominator(num as int, pow10(k) as int, 10);
        assert(pow10(k + 1) == pow10(k) * 10) by (nonlinear_arith)
            requires
                pow10(k + 1) == 10 * pow10(k),
        ;
        lemma_digits_run_out(num, k + 1, position);
    }
}

/// The digits below `position + 1` are the digit at `position` and the
/// digits below it.
pub proof fn lemma_low_step(num: nat, position: nat)
    ensures
        low(num, position + 1) == pow10(position) * digit(num, position) + low(num, position),
        low(num, position) < pow10(position),
        digit(num, position) < 10,
{
    lemma_pow10_positive(position);
    lemma_mod_breakdown(num as int, pow10(position) as int, 10);
    assert(pow10(position + 1) == pow10(position) * 10) by (nonlinear_arith)
        requires
            pow10(position + 1) == 10 * pow10(position),
    ;
    lemma_mod_bound(num as int, pow10(position) as int);
}

/// Returns the decimal digit of `num` at `position`, where position 0 is
/// the lowest digit. Beyond the highest digit of `num` the digit is 0.
pub fn get_digit(num: usize, position: usize) -> (d: usize)
    ensures
        d == digit(num as nat, position as nat),
{
    let mut rest = num;
    let mut k: usize = 0;
    proof {
        assert(pow10(0) == 1);
    }
    while k < position && rest > 0
        invariant
            k <= position,
            rest == num as nat / pow10(k as nat),
        decreases position - k,
    {
        proof {
            lemma_pow10_positive(k as nat);
            lemma_div_denominator(num as int, pow10(k as nat) as int, 10);
            assert(pow10((k + 1) as nat) == pow10(k as nat) * 10) by (nonlinear_arith)
                requires
                    pow10((k + 1) as nat) == 10 * pow10(k as nat),
            ;
        }
        rest = rest / 10;
        k += 1;
    }
    proof {
        if k < position {
            lemma_digits_run_out(num as nat, k as nat, position as nat);
        }
    }
    rest % 10
}

/// Returns the number of decimal digits of `num`, 0 for 0.
fn count_digits(num: usize) -> (count: usize)
    ensures
        num < pow10(count as nat),
{
    let mut rest = num;
    let mut count: usize = 0;
    proof {
        assert(pow10(0) == 1);
    }
    while rest > 0
        invariant
            rest == num as nat / pow10(count as nat),
            count + rest <= num,
        decreases rest,
    {
        proof {
            lemma_pow10_positive(count as nat);
            lemma_div_denominator(num as int, pow10(count as nat) as int, 10);
            assert(pow10((count + 1) as nat) == pow10(count as nat) * 10) by (nonlinear_arith)
                requires
                    pow10((count + 1) as nat) == 10 * pow10(count as nat),
            ;
        }
        rest = rest / 10;
        count += 1;
    }
    proof {
        lemma_pow10_positive(count as nat);
        lemma_fundamental_div_mod(num as int, pow10(count as nat) as int);
        lemma_mod_bound(num as int, pow10(count as nat) as int);
        assert(pow10(count as nat) * (num as nat / pow10(count as nat)) == 0) by (nonlinear_arith)
            requires
                num as nat / pow10(count as nat) == 0,
        ;
    }
    count
}

/// What a bucket gains when an element is added at the end.
proof fn lemma_bucket_push(s: Seq<usize>, x: usize, position: nat, d: nat)
    ensures
        bucket(s.push(x), position, d) == if digit(x as nat, position) == d {
            bucket(s, position, d).push(x)
        } else {
            bucket(s, position, d)
        },
{
    assert(s.push(x).drop_last() =~= s);
}

/// A bucket holds elements of the sequence only: each has the digit of
/// the bucket and stands somewhere in the sequence.
proof fn lemma_bucket_member(s: Seq<usize>, position: nat, d: nat, r: int) -> (j: int)
    requires
        0 <= r < bucket(s, position, d).len(),
    ensures
        0 <= j < s.len(),
        s[j] == bucket(s, position, d)[r],
        digit(s[j] as nat, position) == d,
    decreases s.len(),
{
    let rest = bucket(s.drop_last(), position, d);
    if digit(s.last() as nat, position) == d && r == rest.len() {
        s.len() - 1
    } else {
        lemma_bucket_member(s.drop_last(), position, d, r)
    }
}

/// The bucket of the first `k` elements is the beginning of the bucket of
/// all of them.
proof fn lemma_bucket_prefix(s: Seq<usize>, k: int, position: nat, d: nat)
    requires
        0 <= k <= s.len(),
    ensures
        bucket(s.take(k), position, d).len() <= bucket(s, position, d).len(),
        bucket(s.take(k), position, d).len() <= k,
        forall|r: int|
            0 <= r < bucket(s.take(k), position, d).len() ==> bucket(s, position, d)[r] == bucket(
                s.take(k),
                position,
                d,
            )[r],
    decreases s.len() - k,
{
    if k == s.len() {
        assert(s.take(k) =~= s);
        lemma_bucket_short(s, position, d);
    } else {
        assert(s.drop_last().take(k) =~= s.take(k));
        lemma_bucket_prefix(s.drop_last(), k, position, d);
    }
}

/// A bucket is no longer than the sequence.
proof fn lemma_bucket_short(s: Seq<usize>, position: nat, d: nat)
    ensures
        bucket(s, position, d).len() <= s.len(),
    decreases s.len(),
{
    if s.len() > 0 {
        lemma_bucket_short(s.drop_last(), position, d);
    }
}

/// A bucket keeps the order of the digits below its position.
proof fn lemma_bucket_keeps_order(s: Seq<usize>, position: nat, d: nat)
    requires
        ascending_below(s, position),
    ensures
        ascending_below(bucket(s, position, d), position),
    decreases s.len(),
{
    if s.len() > 0 {
        let front = s.drop_last();
        let rest = bucket(front, position, d);
        let whole = bucket(s, position, d);
        assert forall|a: int, b: int| 0 <= a < b < front.len() implies low(
            front[a] as nat,
            position,
        ) <= low(front[b] as nat, position) by {
            assert(front[a] == s[a] && front[b] == s[b]);
        }
        lemma_bucket_keeps_order(front, position, d);
        assert forall|a: int, b: int| 0 <= a < b < whole.len() implies low(
            whole[a] as nat,
            position,
        ) <= low(whole[b] as nat, position) by {
            if b < rest.len() {
                assert(whole[a] == rest[a] && whole[b] == rest[b]);
            } else {
                let j = lemma_bucket_member(front, position, d, a);
                assert(whole[a] == s[j]);
                assert(whole[b] == s[s.len() - 1]);
            }
        }
    }
}

/// Where the buckets stand among the gathered elements: bucket `d` begins
/// where the buckets before it end.
proof fn lemma_gathered_index(s: Seq<usize>, position: nat, e: nat, d: nat)
    requires
        d < e,
    ensures
        gathered(s, position, d).len() + bucket(s, position, d).len() == gathered(
            s,
            position,
            d + 1,
        ).len(),
        gathered(s, position, d + 1).len() <= gathered(s, position, e).len(),
        forall|r: int|
            0 <= r < bucket(s, position, d).len() ==> gathered(s, position, e)[gathered(
                s,
                position,
                d,
            ).len() + r] == bucket(s, position, d)[r],
    decreases e,
{
    if d + 1 < e {
        lemma_gathered_index(s, position, (e - 1) as nat, d);
    }
}

/// The bucket in which position `p` of the gathered elements lies, and
/// the place of `p` in that bucket.
proof fn lemma_locate(s: Seq<usize>, position: nat, e: nat, p: int) -> (at: (nat, int))
    requires
        0 <= p < gathered(s, position, e).len(),
    ensures
        at.0 < e,
        0 <= at.1 < bucket(s, position, at.0).len(),
        p == gathered(s, position, at.0).len() + at.1,
    decreases e,
{
    let before = gathered(s, position, (e - 1) as nat);
    if p < before.len() {
        lemma_locate(s, position, (e - 1) as nat, p)
    } else {
        ((e - 1) as nat, p - before.len())
    }
}

/// How often a value occurs in a bucket: as often as in the sequence if
/// it has the digit of the bucket, and not at all otherwise.
proof fn lemma_bucket_count(s: Seq<usize>, position: nat, d: nat, x: usize)
    ensures
        bucket(s, position, d).to_multiset().count(x) == if digit(x as nat, position) == d {
            s.to_multiset().count(x)
        } else {
            0
        },
    decreases s.len(),
{
    broadcast use vstd::seq_lib::group_to_multiset_ensures;

    if s.len() == 0 {
        assert(s.to_multiset().count(x) == 0) by {
            assert(!s.contains(x));
        }
        assert(!bucket(s, position, d).contains(x));
    } else {
        let front = s.drop_last();
        lemma_bucket_count(front, position, d, x);
        assert(s =~= front.push(s.last()));
        assert(s.to_multiset() =~= front.to_multiset().insert(s.last()));
    }
}

/// How often a value occurs among the gathered elements.
proof fn lemma_gathered_count(s: Seq<usize>, position: nat, e: nat, x: usize)
    ensures
        gathered(s, position, e).to_multiset().count(x) == if digit(x as nat, position) < e {
            s.to_multiset().count(x)
        } else {
            0
        },
    decreases e,
{
    broadcast use vstd::seq_lib::group_to_multiset_ensures;

    if e == 0 {
        assert(!gathered(s, position, e).contains(x));
    } else {
        lemma_gathered_count(s, position, (e - 1) as nat, x);
        lemma_bucket_count(s, position, (e - 1) as nat, x);
        lemma_multiset_commutative(
            gathered(s, position, (e - 1) as nat),
            bucket(s, position, (e - 1) as nat),
        );
    }
}

/// Gathering by a digit rearranges the elements: none is lost and none is
/// added.
pub proof fn lemma_gathered_rearranges(s: Seq<usize>, position: nat)
    ensures
        gathered(s, position, 10).to_multiset() == s.to_multiset(),
        gathered(s, position, 10).len() == s.len(),
{
    broadcast use vstd::seq_lib::group_to_multiset_ensures;

    assert forall|x: usize|
        gathered(s, position, 10).to_multiset().count(x) == s.to_multiset().count(x) by {
        lemma_gathered_count(s, position, 10, x);
        lemma_low_step(x as nat, position);
    }
    assert(gathered(s, position, 10).to_multiset() =~= s.to_multiset());
    s.to_multiset_ensures();
    gathered(s, position, 10).to_multiset_ensures();
}

/// Gathering by the digit at `position` elements that are in order below
/// that position puts them in order below the next position.
pub proof fn lemma_gathered_order(s: Seq<usize>, position: nat)
    requires
        ascending_below(s, position),
    ensures
        ascending_below(gathered(s, position, 10), position + 1),
{
    let out = gathered(s, position, 10);
    assert forall|a: int, b: int| 0 <= a < b < out.len() implies low(out[a] as nat, position + 1)
        <= low(out[b] as nat, position + 1) by {
        let (da, ra) = lemma_locate(s, position, 10, a);
        let (db, rb) = lemma_locate(s, position, 10, b);
        lemma_gathered_index(s, position, 10, da);
        lemma_gathered_index(s, position, 10, db);
        let ja = lemma_bucket_member(s, position, da, ra);
        let jb = lemma_bucket_member(s, position, db, rb);
        lemma_low_step(out[a] as nat, position);
        lemma_low_step(out[b] as nat, position);
        let unit = pow10(position);
        let la = low(out[a] as nat, position);
        let lb = low(out[b] as nat, position);
        if da < db {
            assert(unit * da + la <= unit * db + lb) by (nonlinear_arith)
                requires
                    da < db,
                    la < unit,
            ;
        } else if da == db {
            lemma_bucket_keeps_order(s, position, da);
            assert(ra < rb);
        } else {
            lemma_gathered_index(s, position, da, db);
        }
    }
}

/// Creates a vector that holds `n` zeros.
fn zeros(n: usize) -> (vec: Vec<usize>)
    ensures
        vec@.len() == n,
        forall|i: int| 0 <= i < n ==> vec@[i] == 0,
{
    let mut vec: Vec<usize> = Vec::new();
    let mut i: usize = 0;
    while i < n
        invariant
            i <= n,
            vec@.len() == i,
            forall|j: int| 0 <= j < i ==> vec@[j] == 0,
        decreases n - i,
    {
        vec.push(0);
        i += 1;
    }
    vec
}

/// Sorts `arr` by the digit at `position` with a counting sort: the
/// elements with digit 0 come first, then those with digit 1, and so on,
/// and elements with the same digit stay in the order in which they were.
fn counting_pass(arr: &mut [usize], position: usize)
    ensures
        final(arr)@ == gathered(old(arr)@, position as nat, 10),
{
    let n = arr.len();
    let ghost s = arr@;
    let ghost at = position as nat;
    let mut count = zeros(10);
    let mut output = zeros(n);

    // Count the occurrences of each digit.
    let mut k: usize = 0;
    while k < n
        invariant
            k <= n,
            n == s.len(),
            arr@ == s,
            at == position as nat,
            count@.len() == 10,
            forall|d: int| 0 <= d < 10 ==> count@[d] == bucket(s.take(k as int), at, d as nat).len(),
        decreases n - k,
    {
        let d = get_digit(arr[k], position);
        proof {
            lemma_low_step(s[k as int] as nat, at);
            assert(s.take(k + 1) =~= s.take(k as int).push(s[k as int]));
            assert forall|e: nat| e < 10 implies (#[trigger] bucket(s.take(k + 1), at, e)).len()
                == bucket(s.take(k as int), at, e).len() + if e == d {
                1int
            } else {
                0int
            } by {
                lemma_bucket_push(s.take(k as int), s[k as int], at, e);
            }
            lemma_bucket_prefix(s, k as int, at, d as nat);
        }
        count[d] += 1;
        k += 1;
    }
    proof {
        assert(s.take(n as int) =~= s);
        lemma_gathered_rearranges(s, at);
        assert(gathered(s, at, 1) =~= bucket(s, at, 0)) by {
            assert(gathered(s, at, 0) =~= Seq::<usize>::empty());
        }
    }

    // Turn the counts into the position at which each digit ends.
    let mut j: usize = 1;
    while j < 10
        invariant
            1 <= j <= 10,
            n == s.len(),
            count@.len() == 10,
            gathered(s, at, 10).len() == n,
            forall|d: int| 0 <= d < j ==> count@[d] == gathered(s, at, (d + 1) as nat).len(),
            forall|d: int| j <= d < 10 ==> count@[d] == bucket(s, at, d as nat).len(),
        decreases 10 - j,
    {
        proof {
            lemma_gathered_index(s, at, 10, j as nat);
        }
        count[j] += count[j - 1];
        j += 1;
    }

    // Place the elements, last first, with the last of each digit at the
    // end of the range of that digit.
    let mut k: usize = n;
    proof {
        assert forall|d: int| 0 <= d < 10 implies count@[d] == gathered(s, at, d as nat).len()
            + bucket(s.take(k as int), at, d as nat).len() by {
            lemma_gathered_index(s, at, 10, d as nat);
        }
    }
    while k > 0
        invariant
            k <= n,
            n == s.len(),
            arr@ == s,
            at == position as nat,
            count@.len() == 10,
            output@.len() == n,
            gathered(s, at, 10).len() == n,
            forall|d: int|
                0 <= d < 10 ==> count@[d] == gathered(s, at, d as nat).len() + bucket(
                    s.take(k as int),
                    at,
                    d as nat,
                ).len(),
            forall|d: nat, r: int|
                d < 10 && bucket(s.take(k as int), at, d).len() <= r < bucket(s, at, d).len()
                    ==> output@[gathered(s, at, d).len() + r] == #[trigger] bucket(s, at, d)[r],
        decreases k,
    {
        let num = arr[k - 1];
        let d = get_digit(num, position);
        let ghost before = output@;
        let ghost r0 = bucket(s.take(k - 1), at, d as nat).len() as int;
        proof {
            lemma_low_step(num as nat, at);
            assert(s.take(k as int) =~= s.take(k - 1).push(num));
            assert forall|e: nat| e < 10 implies #[trigger] bucket(s.take(k as int), at, e)
                == if e == d {
                bucket(s.take(k - 1), at, e).push(num)
            } else {
                bucket(s.take(k - 1), at, e)
            } by {
                lemma_bucket_push(s.take(k - 1), num, at, e);
            }
            lemma_bucket_prefix(s, k as int, at, d as nat);
            lemma_gathered_index(s, at, 10, d as nat);
            assert(bucket(s, at, d as nat)[r0] == num);
        }
        output[count[d] - 1] = num;
        count[d] -= 1;
        proof {
            assert forall|e: nat, r: int|
                e < 10 && bucket(s.take(k - 1), at, e).len() <= r < bucket(s, at, e).len()
                implies output@[gathered(s, at, e).len() + r] == #[trigger] bucket(s, at, e)[r] by {
                lemma_gathered_index(s, at, 10, e);
                if e < d {
                    lemma_gathered_index(s, at, d as nat, e);
                } else if d < e {
                    lemma_gathered_index(s, at, e, d as nat);
                }
                if e == d && r == r0 {
                } else {
                    assert(gathered(s, at, e).len() + r != gathered(s, at, d as nat).len() + r0);
                    assert(output@[gathered(s, at, e).len() + r] == before[gathered(s, at, e).len()
                        + r]);
                }
            }
        }
        k -= 1;
    }
    proof {
        assert(s.take(0) =~= Seq::<usize>::empty());
        assert forall|p: int| 0 <= p < n implies output@[p] == gathered(s, at, 10)[p] by {
            let (d, r) = lemma_locate(s, at, 10, p);
            lemma_gathered_index(s, at, 10, d);
            assert(bucket(s.take(0), at, d).len() == 0);
            assert(output@[gathered(s, at, d).len() + r] == bucket(s, at, d)[r]);
        }
        assert(output@ =~= gathered(s, at, 10));
    }

    // Copy the result back.
    let mut i: usize = 0;
    while i < n
        invariant
            i <= n,
            n == arr@.len(),
            n == output@.len(),
            forall|p: int| 0 <= p < i ==> arr@[p] == output@[p],
        decreases n - i,
    {
        arr[i] = output[i];
        i += 1;
    }
    proof {
        assert(arr@ =~= output@);
    }
}

/// Sorts `arr` in ascending order, digit by digit: one counting sort for
/// each decimal digit of the greatest element, lowest digit first.
pub fn sort(arr: &mut [usize])
    ensures
        ascending(final(arr)@),
        final(arr)@.to_multiset() == old(arr)@.to_multiset(),
{
    let n = arr.len();
    if n == 0 {
        return ;
    }
    // Find the greatest number, to know how many digits there are.
    let mut max_num = arr[0];
    let mut i: usize = 1;
    while i < n
        invariant
            1 <= i <= n,
            n == arr@.len(),
            forall|p: int| 0 <= p < i ==> arr@[p] <= max_num,
        decreases n - i,
    {
        if arr[i] > max_num {
            max_num = arr[i];
        }
        i += 1;
    }
    let num_digits = count_digits(max_num);

    let mut position: usize = 0;
    proof {
        assert(pow10(0) == 1);
    }
    while position < num_digits
        invariant
            position <= num_digits,
            n == arr@.len(),
            arr@.to_multiset() == old(arr)@.to_multiset(),
            ascending_below(arr@, position as nat),
        decreases num_digits - position,
    {
        proof {
            lemma_gathered_rearranges(arr@, position as nat);
            lemma_gathered_order(arr@, position as nat);
        }
        counting_pass(arr, position);
        position += 1;
    }
    proof {
        broadcast use vstd::seq_lib::group_to_multiset_ensures;

        assert forall|a: int, b: int| 0 <= a < b < arr@.len() implies arr@[a] <= arr@[b] by {
            assert forall|p: int| 0 <= p < arr@.len() implies low(
                arr@[p] as nat,
                num_digits as nat,
            ) == arr@[p] by {
                assert(arr@.to_multiset().count(arr@[p]) > 0);
                assert(old(arr)@.contains(arr@[p]));
                let q = old(arr)@.index_of(arr@[p]);
                assert(old(arr)@[q] <= max_num);
                lemma_small_mod(arr@[p] as nat, pow10(num_digits as nat));
            }
            assert(low(arr@[a] as nat, num_digits as nat) <= low(
                arr@[b] as nat,
                num_digits as nat,
            ));
        }
    }
}

} // verus!
