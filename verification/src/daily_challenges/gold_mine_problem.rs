//! The gold mine: a miner starts in any row of the first column of a
//! table of gold and moves right, up to the right, or down to the right,
//! until he leaves the table; how much gold can he collect?

use vstd::prelude::*;

verus! {

/// The table has `n` rows of at least `m` fields each.
pub open spec fn mine_ok(gold_map: Seq<Vec<u32>>, n: int, m: int) -> bool {
    &&& gold_map.len() == n
    &&& forall|x: int| 0 <= x < n ==> (#[trigger] gold_map[x])@.len() >= m
}

/// The most gold that can be collected from the field in row `x` and
/// column `y` on; outside the table there is none.
pub open spec fn gold(gold_map: Seq<Vec<u32>>, x: int, y: int, n: int, m: int) -> int
    decreases m - y,
{
    if x < 0 || x >= n || y >= m {
        0
    } else {
        let upper_right = gold(gold_map, x - 1, y + 1, n, m);
        let right = gold(gold_map, x, y + 1, n, m);
        let lower_right = gold(gold_map, x + 1, y + 1, n, m);
        gold_map[x]@[y] + greatest(upper_right, right, lower_right)
    }
}

/// The greatest of three numbers.
pub open spec fn greatest(a: int, b: int, c: int) -> int {
    if a >= b && a >= c {
        a
    } else if b >= c {
        b
    } else {
        c
    }
}

/// The number of calls that it takes to collect the gold from the field
/// in row `x` and column `y` on without remembering anything.
pub open spec fn calls(x: int, y: int, n: int, m: int) -> int
    decreases m - y,
{
    if x < 0 || x >= n || y >= m {
        1
    } else {
        1 + calls(x - 1, y + 1, n, m) + calls(x, y + 1, n, m) + calls(x + 1, y + 1, n, m)
    }
}

/// The most gold that can be collected from the first column of one of
/// the first `rows` rows on.
pub open spec fn best_start(gold_map: Seq<Vec<u32>>, rows: int, n: int, m: int) -> int
    decreases rows,
{
    if rows <= 0 {
        0
    } else {
        let before = best_start(gold_map, rows - 1, n, m);
        let here = gold(gold_map, rows - 1, 0, n, m);
        if before >= here {
            before
        } else {
            here
        }
    }
}

/// The number of calls that it takes to try the first `rows` rows without
/// remembering anything.
pub open spec fn start_calls(rows: int, n: int, m: int) -> int
    decreases rows,
{
    if rows <= 0 {
        0
    } else {
        start_calls(rows - 1, n, m) + calls(rows - 1, 0, n, m)
    }
}

/// A memo table is sound if every entry it holds is the most gold that
/// can be collected from its field on.
pub open spec fn memo_ok(
    buffer: Seq<Vec<Option<u32>>>,
    gold_map: Seq<Vec<u32>>,
    n: int,
    m: int,
) -> bool {
    &&& buffer.len() >= n
    &&& forall|x: int| 0 <= x < n ==> (#[trigger] buffer[x])@.len() >= m
    &&& forall|x: int, y: int|
        0 <= x < n && 0 <= y < m && (#[trigger] buffer[x]@[y]).is_some() ==> buffer[x]@[y].unwrap()
            == gold(gold_map, x, y, n, m)
}

/// No amount of gold is negative, no number of calls is less than one,
/// and the gold further right is part of the gold from here.
pub proof fn lemma_gold_bounds(gold_map: Seq<Vec<u32>>, x: int, y: int, n: int, m: int)
    ensures
        gold(gold_map, x, y, n, m) >= 0,
        calls(x, y, n, m) >= 1,
        0 <= x < n && y < m ==> {
            &&& gold(gold_map, x - 1, y + 1, n, m) <= gold(gold_map, x, y, n, m)
            &&& gold(gold_map, x, y + 1, n, m) <= gold(gold_map, x, y, n, m)
            &&& gold(gold_map, x + 1, y + 1, n, m) <= gold(gold_map, x, y, n, m)
            &&& gold_map[x]@[y] <= gold(gold_map, x, y, n, m)
        },
    decreases m - y,
{
    if 0 <= x < n && y < m {
        lemma_gold_bounds(gold_map, x - 1, y + 1, n, m);
        lemma_gold_bounds(gold_map, x, y + 1, n, m);
        lemma_gold_bounds(gold_map, x + 1, y + 1, n, m);
    }
}

/// Collects the most gold that can be had from the field in row `x` and
/// column `y` on, trying every way, and counts each call in
/// `call_count`.
pub fn collect_gold_greedy(
    gold_map: &Vec<Vec<u32>>,
    x: isize,
    y: usize,
    n: usize,
    m: usize,
    call_count: &mut u32,
) -> (result: u32)
    requires
        mine_ok(gold_map@, n as int, m as int),
        -1 <= x <= n <= isize::MAX,
        y <= m,
        gold(gold_map@, x as int, y as int, n as int, m as int) <= u32::MAX,
        *old(call_count) + calls(x as int, y as int, n as int, m as int) <= u32::MAX,
    ensures
        result == gold(gold_map@, x as int, y as int, n as int, m as int),
        *final(call_count) == *old(call_count) + calls(x as int, y as int, n as int, m as int),
    decreases m - y,
{
    proof {
        lemma_gold_bounds(gold_map@, x as int, y as int, n as int, m as int);
        lemma_gold_bounds(gold_map@, x - 1, y + 1, n as int, m as int);
        lemma_gold_bounds(gold_map@, x as int, y + 1, n as int, m as int);
        lemma_gold_bounds(gold_map@, x + 1, y + 1, n as int, m as int);
    }
    *call_count += 1;
    if x < 0 || x as usize == n || y == m {
        return 0;
    }
    let upper_right = collect_gold_greedy(gold_map, x - 1, y + 1, n, m, call_count);
    let right = collect_gold_greedy(gold_map, x, y + 1, n, m, call_count);
    let lower_right = collect_gold_greedy(gold_map, x + 1, y + 1, n, m, call_count);
    let further = if upper_right >= right && upper_right >= lower_right {
        upper_right
    } else if right >= lower_right {
        right
    } else {
        lower_right
    };
    return gold_map[x as usize][y] + further;
}

/// Collects the most gold that can be had from the field in row `x` and
/// column `y` on, looking up and filling the memo table `buffer`, and
/// counts each call in `call_count`: at least this one, and no more than
/// it takes without the table.
pub fn collect_gold_memoized(
    gold_map: &Vec<Vec<u32>>,
    buffer: &mut Vec<Vec<Option<u32>>>,
    x: isize,
    y: usize,
    n: usize,
    m: usize,
    call_count: &mut u32,
) -> (result: u32)
    requires
        mine_ok(gold_map@, n as int, m as int),
        memo_ok(old(buffer)@, gold_map@, n as int, m as int),
        -1 <= x <= n <= isize::MAX,
        y <= m,
        gold(gold_map@, x as int, y as int, n as int, m as int) <= u32::MAX,
        *old(call_count) + calls(x as int, y as int, n as int, m as int) <= u32::MAX,
    ensures
        result == gold(gold_map@, x as int, y as int, n as int, m as int),
        memo_ok(final(buffer)@, gold_map@, n as int, m as int),
        final(buffer)@.len() == old(buffer)@.len(),
        *old(call_count) < *final(call_count) <= *old(call_count) + calls(
            x as int,
            y as int,
            n as int,
            m as int,
        ),
    decreases m - y,
{
    proof {
        lemma_gold_bounds(gold_map@, x as int, y as int, n as int, m as int);
        lemma_gold_bounds(gold_map@, x - 1, y + 1, n as int, m as int);
        lemma_gold_bounds(gold_map@, x as int, y + 1, n as int, m as int);
        lemma_gold_bounds(gold_map@, x + 1, y + 1, n as int, m as int);
    }
    *call_count += 1;
    if x < 0 || x as usize == n || y == m {
        return 0;
    }
    if buffer[x as usize][y].is_some() {
        return buffer[x as usize][y].unwrap();
    }
    let upper_right = collect_gold_memoized(gold_map, buffer, x - 1, y + 1, n, m, call_count);
    let right = collect_gold_memoized(gold_map, buffer, x, y + 1, n, m, call_count);
    let lower_right = collect_gold_memoized(gold_map, buffer, x + 1, y + 1, n, m, call_count);
    let further = if upper_right >= right && upper_right >= lower_right {
        upper_right
    } else if right >= lower_right {
        right
    } else {
        lower_right
    };
    let max_gold = gold_map[x as usize][y] + further;
    let ghost before = buffer@;
    buffer[x as usize].set(y, Some(max_gold));
    proof {
        assert forall|a: int, b: int|
            0 <= a < n && 0 <= b < m && (#[trigger] buffer@[a]@[b]).is_some() implies buffer@[a]@[b].unwrap()
            == gold(gold_map@, a, b, n as int, m as int) by {
            if a != x || b != y {
                assert(buffer@[a]@[b] == before[a]@[b]);
            }
        }
        assert forall|a: int| 0 <= a < n implies (#[trigger] buffer@[a])@.len() >= m by {
            assert(before[a]@.len() >= m);
        }
    }
    max_gold
}

/// Finds the most gold that the miner can collect, trying every way from
/// every row of the first column, and counts each call in `call_count`.
pub fn get_max_gold_greedy(gold_map: &Vec<Vec<u32>>, call_count: &mut u32) -> (result: u32)
    requires
        gold_map@.len() > 0,
        mine_ok(gold_map@, gold_map@.len() as int, gold_map@[0]@.len() as int),
        gold_map@.len() <= isize::MAX,
        forall|i: int|
            0 <= i < gold_map@.len() ==> #[trigger] gold(
                gold_map@,
                i,
                0,
                gold_map@.len() as int,
                gold_map@[0]@.len() as int,
            ) <= u32::MAX,
        *old(call_count) + start_calls(
            gold_map@.len() as int,
            gold_map@.len() as int,
            gold_map@[0]@.len() as int,
        ) <= u32::MAX,
    ensures
        result == best_start(
            gold_map@,
            gold_map@.len() as int,
            gold_map@.len() as int,
            gold_map@[0]@.len() as int,
        ),
        *final(call_count) == *old(call_count) + start_calls(
            gold_map@.len() as int,
            gold_map@.len() as int,
            gold_map@[0]@.len() as int,
        ),
{
    let n = gold_map.len();
    let m = gold_map[0].len();
    let mut max_gold: u32 = 0;
    let mut i: usize = 0;
    while i < n
        invariant
            i <= n,
            n == gold_map@.len(),
            m == gold_map@[0]@.len(),
            n <= isize::MAX,
            mine_ok(gold_map@, n as int, m as int),
            forall|k: int|
                0 <= k < n ==> #[trigger] gold(gold_map@, k, 0, n as int, m as int) <= u32::MAX,
            max_gold == best_start(gold_map@, i as int, n as int, m as int),
            *call_count == *old(call_count) + start_calls(i as int, n as int, m as int),
            *old(call_count) + start_calls(n as int, n as int, m as int) <= u32::MAX,
        decreases n - i,
    {
        proof {
            lemma_start_calls_monotonic(i + 1, n as int, n as int, m as int);
        }
        let here = collect_gold_greedy(gold_map, i as isize, 0, n, m, call_count);
        if here > max_gold {
            max_gold = here;
        }
        i += 1;
    }
    max_gold
}

/// Trying more rows never takes fewer calls.
pub proof fn lemma_start_calls_monotonic(a: int, b: int, n: int, m: int)
    requires
        a <= b,
    ensures
        start_calls(a, n, m) <= start_calls(b, n, m),
        start_calls(a, n, m) >= 0,
    decreases b - a, a,
{
    let empty = Seq::<Vec<u32>>::empty();
    if a > 0 {
        lemma_start_calls_monotonic(a - 1, a - 1, n, m);
        lemma_gold_bounds(empty, a - 1, 0, n, m);
    }
    if a < b {
        lemma_start_calls_monotonic(a, b - 1, n, m);
        if b > 0 {
            lemma_gold_bounds(empty, b - 1, 0, n, m);
        }
    }
}

/// Finds the most gold that the miner can collect, remembering what has
/// been found for each field, and counts each call in `call_count`: no
/// more than it takes without remembering.
pub fn get_max_gold_memoized(gold_map: &Vec<Vec<u32>>, call_count: &mut u32) -> (result: u32)
    requires
        gold_map@.len() > 0,
        mine_ok(gold_map@, gold_map@.len() as int, gold_map@[0]@.len() as int),
        gold_map@.len() <= isize::MAX,
        forall|i: int|
            0 <= i < gold_map@.len() ==> #[trigger] gold(
                gold_map@,
                i,
                0,
                gold_map@.len() as int,
                gold_map@[0]@.len() as int,
            ) <= u32::MAX,
        *old(call_count) + start_calls(
            gold_map@.len() as int,
            gold_map@.len() as int,
            gold_map@[0]@.len() as int,
        ) <= u32::MAX,
    ensures
        result == best_start(
            gold_map@,
            gold_map@.len() as int,
            gold_map@.len() as int,
            gold_map@[0]@.len() as int,
        ),
        *old(call_count) + gold_map@.len() <= *final(call_count) <= *old(call_count) + start_calls(
            gold_map@.len() as int,
            gold_map@.len() as int,
            gold_map@[0]@.len() as int,
        ),
{
    let n = gold_map.len();
    let m = gold_map[0].len();
    let mut max_gold: u32 = 0;
    let mut buffer: Vec<Vec<Option<u32>>> = Vec::new();
    let mut r: usize = 0;
    while r < n
        invariant
            r <= n,
            buffer@.len() == r,
            forall|x: int| 0 <= x < r ==> (#[trigger] buffer@[x])@.len() == m,
            forall|x: int, y: int| 0 <= x < r && 0 <= y < m ==> (#[trigger] buffer@[x]@[y]).is_none(),
        decreases n - r,
    {
        let mut row: Vec<Option<u32>> = Vec::new();
        let mut c: usize = 0;
        while c < m
            invariant
                c <= m,
                row@.len() == c,
                forall|y: int| 0 <= y < c ==> (#[trigger] row@[y]).is_none(),
            decreases m - c,
        {
            row.push(None);
            c += 1;
        }
        buffer.push(row);
        r += 1;
    }
    let mut i: usize = 0;
    while i < n
        invariant
            i <= n,
            n == gold_map@.len(),
            m == gold_map@[0]@.len(),
            n <= isize::MAX,
            mine_ok(gold_map@, n as int, m as int),
            memo_ok(buffer@, gold_map@, n as int, m as int),
            forall|k: int|
                0 <= k < n ==> #[trigger] gold(gold_map@, k, 0, n as int, m as int) <= u32::MAX,
            max_gold == best_start(gold_map@, i as int, n as int, m as int),
            *old(call_count) + i <= *call_count <= *old(call_count) + start_calls(
                i as int,
                n as int,
                m as int,
            ),
            *old(call_count) + start_calls(n as int, n as int, m as int) <= u32::MAX,
        decreases n - i,
    {
        proof {
            lemma_start_calls_monotonic(i + 1, n as int, n as int, m as int);
        }
        let here = collect_gold_memoized(gold_map, &mut buffer, i as isize, 0, n, m, call_count);
        if here > max_gold {
            max_gold = here;
        }
        i += 1;
    }
    max_gold
}

} // verus!
