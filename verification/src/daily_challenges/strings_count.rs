use vstd::prelude::*;

verus! {

/// The number of strings of length `n` over the letters a, b and c that
/// hold at most one b and at most two c: by the number of b and c, one
/// string with neither, `n` with one b, `n` with one c, `n (n - 1) / 2`
/// with two c, `n (n - 1)` with one b and one c, and
/// `n (n - 1) / 2 * (n - 2)` with one b and two c.
pub open spec fn count(n: nat) -> int {
    if n == 0 {
        0
    } else {
        1 + n + n + n * (n - 1) / 2 + n * (n - 1) + if n > 2 {
            (n * (n - 1) / 2) * (n - 2)
        } else {
            0
        }
    }
}

/// Counts the strings of length `n` over a, b and c with at most one b and
/// at most two c.
pub fn strings_count(n: u32) -> (result: u32)
    requires
        count(n as nat) <= u32::MAX,
    ensures
        result == count(n as nat),
{
    if n == 0 {
        return 0;
    }
    proof {
        assert(n * (n - 1) >= 0) by (nonlinear_arith)
            requires
                n >= 1,
        ;
        assert(n > 2 ==> (n * (n - 1) / 2) * (n - 2) >= 0) by (nonlinear_arith)
            requires
                n >= 1,
        ;
    }
    let strings_with_a_only: u32 = 1;
    let strings_with_one_b: u32 = n;
    let strings_with_one_c: u32 = n;
    let strings_with_two_c: u32 = n * (n - 1) / 2;
    let strings_with_one_b_and_one_c: u32 = n * (n - 1);
    let strings_with_one_b_and_two_c: u32 = if n > 2 {
        strings_with_two_c * (n - 2)
    } else {
        0
    };
    strings_with_a_only + strings_with_one_b + strings_with_one_c + strings_with_two_c
        + strings_with_one_b_and_one_c + strings_with_one_b_and_two_c
}

} // verus!
