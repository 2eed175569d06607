use vstd::prelude::*;

verus! {

/// The number of ways to paint `posts` posts with `colors` colours so
/// that no more than two neighbouring posts share a colour: a painting of
/// `n` posts is a painting of `n - 1` posts followed by another colour, or
/// a painting of `n - 2` posts followed by two posts of another colour.
pub open spec fn ways(posts: nat, colors: nat) -> int
    decreases posts,
{
    if colors == 0 || posts == 0 {
        0
    } else if posts == 1 {
        colors as int
    } else if posts == 2 {
        (colors * colors) as int
    } else {
        (colors - 1) * (ways((posts - 1) as nat, colors) + ways((posts - 2) as nat, colors))
    }
}

/// With at least one colour no count is negative.
pub proof fn lemma_ways_nonnegative(posts: nat, colors: nat)
    ensures
        ways(posts, colors) >= 0,
    decreases posts,
{
    if colors > 0 && posts > 2 {
        lemma_ways_nonnegative((posts - 1) as nat, colors);
        lemma_ways_nonnegative((posts - 2) as nat, colors);
        assert((colors - 1) * (ways((posts - 1) as nat, colors) + ways((posts - 2) as nat, colors))
            >= 0) by (nonlinear_arith)
            requires
                colors >= 1,
                ways((posts - 1) as nat, colors) + ways((posts - 2) as nat, colors) >= 0,
        ;
    } else if colors > 0 && posts == 2 {
        assert(colors * colors >= 0) by (nonlinear_arith);
    }
}

/// With at least two colours, more posts never give fewer paintings.
pub proof fn lemma_ways_monotonic(a: nat, b: nat, colors: nat)
    requires
        colors >= 2,
        1 <= a <= b,
    ensures
        ways(a, colors) <= ways(b, colors),
    decreases b,
{
    if a < b {
        lemma_ways_nonnegative((b - 1) as nat, colors);
        lemma_ways_nonnegative((b - 2) as nat, colors);
        if b == 2 {
            assert(colors <= colors * colors) by (nonlinear_arith)
                requires
                    colors >= 1,
            ;
        } else {
            lemma_ways_monotonic(a, (b - 1) as nat, colors);
            let x = ways((b - 1) as nat, colors);
            let y = ways((b - 2) as nat, colors);
            assert(x <= (colors - 1) * (x + y)) by (nonlinear_arith)
                requires
                    colors >= 2,
                    x >= 0,
                    y >= 0,
            ;
        }
    }
}

/// Counts the ways to paint `posts` posts with `colors` colours so that
/// no more than two neighbouring posts share a colour.
pub fn paint_the_fence(posts: u32, colors: u32) -> (result: u32)
    requires
        ways(posts as nat, colors as nat) <= u32::MAX,
    ensures
        result == ways(posts as nat, colors as nat),
{
    if colors == 0 {
        return 0;
    }
    if posts == 0 {
        return 0;
    }
    if posts == 1 {
        return colors;
    }
    if posts == 2 {
        return colors * colors;
    }
    let ghost c = colors as nat;
    proof {
        if colors >= 2 {
            lemma_ways_monotonic(2, posts as nat, c);
        } else {
            assert(1 * 1 == 1);
        }
        assert(colors * (colors - 1) <= colors * colors) by (nonlinear_arith)
            requires
                colors >= 1,
        ;
        assert(colors * (colors - 1) >= 0) by (nonlinear_arith)
            requires
                colors >= 1,
        ;
        assert(colors + colors * (colors - 1) == colors * colors) by (nonlinear_arith);
        assert((colors - 1) * colors == colors * (colors - 1)) by (nonlinear_arith);
    }
    let mut i: u32 = 2;
    let mut combinations_without_consecutive_colors: u32 = colors * (colors - 1);
    let mut combinations_with_consecutive_colors: u32 = colors;
    let mut total_allowed_combinations: u32 = combinations_with_consecutive_colors
        + combinations_without_consecutive_colors;
    while i < posts
        invariant
            2 <= i <= posts,
            c == colors,
            colors >= 1,
            ways(posts as nat, c) <= u32::MAX,
            total_allowed_combinations == ways(i as nat, c),
            combinations_without_consecutive_colors == (colors - 1) * ways((i - 1) as nat, c),
        decreases posts - i,
    {
        proof {
            let x = ways(i as nat, c);
            let y = ways((i - 1) as nat, c);
            lemma_ways_nonnegative(i as nat, c);
            lemma_ways_nonnegative((i - 1) as nat, c);
            assert(ways((i + 1) as nat, c) == (colors - 1) * (x + y));
            assert((colors - 1) * (x + y) == (colors - 1) * y + (colors - 1) * x)
                by (nonlinear_arith);
            assert((colors - 1) * x >= 0 && (colors - 1) * y >= 0) by (nonlinear_arith)
                requires
                    colors >= 1,
                    x >= 0,
                    y >= 0,
            ;
            if colors >= 2 {
                lemma_ways_monotonic((i + 1) as nat, posts as nat, c);
            } else {
                assert((colors - 1) * (x + y) == 0) by (nonlinear_arith)
                    requires
                        colors == 1,
                ;
            }
        }
        combinations_with_consecutive_colors = combinations_without_consecutive_colors;
        combinations_without_consecutive_colors = (colors - 1) * total_allowed_combinations;
        total_allowed_combinations = combinations_with_consecutive_colors
            + combinations_without_consecutive_colors;
        i += 1;
    }
    total_allowed_combinations
}

} // verus!
