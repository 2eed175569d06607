use vstd::prelude::*;

verus! {

/// `base` raised to the power `exponent`.
pub open spec fn pow(base: int, exponent: nat) -> int
    decreases exponent,
{
    if exponent == 0 {
        1
    } else {
        base * pow(base, (exponent - 1) as nat)
    }
}

/// The product of the integers from 1 to `n`.
pub open spec fn fact(n: nat) -> int
    decreases n,
{
    if n <= 1 {
        1
    } else {
        n * fact((n - 1) as nat)
    }
}

/// The product of the elements of `s`.
pub open spec fn product(s: Seq<u32>) -> int
    decreases s.len(),
{
    if s.len() == 0 {
        1
    } else {
        s[s.len() - 1] * product(s.drop_last())
    }
}

/// The sum of the integers from 0 to `n`.
pub open spec fn triangle(n: nat) -> int
    decreases n,
{
    if n == 0 {
        0
    } else {
        n + triangle((n - 1) as nat)
    }
}

/// A power of a natural number is never negative, and a power of a
/// positive number is positive.
pub proof fn lemma_pow_sign(base: int, exponent: nat)
    requires
        base >= 0,
    ensures
        pow(base, exponent) >= 0,
        base >= 1 ==> pow(base, exponent) >= 1,
    decreases exponent,
{
    if exponent > 0 {
        lemma_pow_sign(base, (exponent - 1) as nat);
        assert(base * pow(base, (exponent - 1) as nat) >= 0) by (nonlinear_arith)
            requires
                base >= 0,
                pow(base, (exponent - 1) as nat) >= 0,
        ;
        if base >= 1 {
            assert(base * pow(base, (exponent - 1) as nat) >= 1) by (nonlinear_arith)
                requires
                    base >= 1,
                    pow(base, (exponent - 1) as nat) >= 1,
            ;
        }
    }
}

/// A factorial is at least 1 and at least its argument.
pub proof fn lemma_fact_bounds(n: nat)
    ensures
        fact(n) >= 1,
        fact(n) >= n,
    decreases n,
{
    if n > 1 {
        lemma_fact_bounds((n - 1) as nat);
        assert(n * fact((n - 1) as nat) >= n) by (nonlinear_arith)
            requires
                n >= 1,
                fact((n - 1) as nat) >= 1,
        ;
    }
}

/// The sum of the integers from 0 to `n` in closed form.
pub proof fn lemma_triangle_closed_form(n: nat)
    ensures
        2 * triangle(n) == n * (n + 1),
        triangle(n) >= n,
    decreases n,
{
    if n > 0 {
        lemma_triangle_closed_form((n - 1) as nat);
        assert(triangle(n) == n + triangle((n - 1) as nat));
        assert(2 * (n + triangle((n - 1) as nat)) == n * (n + 1)) by (nonlinear_arith)
            requires
                2 * triangle((n - 1) as nat) == (n - 1) * n,
        ;
    } else {
        assert(n * (n + 1) == 0) by (nonlinear_arith)
            requires
                n == 0,
        ;
    }
}

/// Raises `base` to the power `exponent`.
pub fn power(base: u32, exponent: u32) -> (result: u32)
    requires
        pow(base as int, exponent as nat) <= u32::MAX,
    ensures
        result == pow(base as int, exponent as nat),
    decreases exponent,
{
    if exponent == 0 {
        return 1;
    }
    proof {
        let rest = pow(base as int, (exponent - 1) as nat);
        lemma_pow_sign(base as int, (exponent - 1) as nat);
        if base >= 1 {
            assert(rest <= base * rest) by (nonlinear_arith)
                requires
                    base >= 1,
                    rest >= 0,
            ;
        } else if exponent - 1 > 0 {
            assert(rest == 0 * pow(base as int, (exponent - 2) as nat));
        }
    }
    base * power(base, exponent - 1)
}

/// Multiplies `tail` by `base` raised to the power `exponent`.
pub fn power_tail(base: u32, exponent: u32, tail: u32) -> (result: u32)
    requires
        tail * pow(base as int, exponent as nat) <= u32::MAX,
    ensures
        result == tail * pow(base as int, exponent as nat),
    decreases exponent,
{
    if exponent == 0 {
        return tail;
    }
    proof {
        let rest = pow(base as int, (exponent - 1) as nat);
        lemma_pow_sign(base as int, (exponent - 1) as nat);
        assert(tail * (base * rest) == (tail * base) * rest) by (nonlinear_arith);
        if base >= 1 {
            assert(tail * base <= (tail * base) * rest) by (nonlinear_arith)
                requires
                    rest >= 1,
                    tail * base >= 0,
            ;
        } else {
            assert(tail * base == 0) by (nonlinear_arith)
                requires
                    base == 0,
            ;
        }
    }
    power_tail(base, exponent - 1, tail * base)
}

/// Computes the factorial of `val`.
pub fn factorial(val: i32) -> (result: i32)
    requires
        val >= 1,
        fact(val as nat) <= i32::MAX,
    ensures
        result == fact(val as nat),
    decreases val,
{
    if val == 1 {
        return 1;
    }
    proof {
        let rest = fact((val - 1) as nat);
        lemma_fact_bounds((val - 1) as nat);
        assert(rest <= val * rest) by (nonlinear_arith)
            requires
                val >= 1,
                rest >= 0,
        ;
    }
    val * factorial(val - 1)
}

/// Multiplies `tail` by the factorial of `val`.
pub fn factorial_tail(val: i32, tail: i32) -> (result: i32)
    requires
        val >= 1,
        i32::MIN <= tail * fact(val as nat) <= i32::MAX,
    ensures
        result == tail * fact(val as nat),
    decreases val,
{
    if val == 1 {
        assert(tail * 1 == tail);
        return tail;
    }
    proof {
        let rest = fact((val - 1) as nat);
        lemma_fact_bounds((val - 1) as nat);
        assert(tail * (val * rest) == (tail * val) * rest) by (nonlinear_arith);
        assert(tail * val >= 0 ==> tail * val <= (tail * val) * rest) by (nonlinear_arith)
            requires
                rest >= 1,
        ;
        assert(tail * val <= 0 ==> tail * val >= (tail * val) * rest) by (nonlinear_arith)
            requires
                rest >= 1,
        ;
    }
    factorial_tail(val - 1, tail * val)
}

/// Computes the product of the elements of `vec`, last element first.
pub fn product_of_array(vec: Vec<u32>) -> (result: u32)
    requires
        forall|k: int| 0 <= k <= vec@.len() ==> #[trigger] product(vec@.take(k)) <= u32::MAX,
    ensures
        result == product(vec@),
    decreases vec@.len(),
{
    let mut vec = vec;
    let ghost whole = vec@;
    let val = vec.pop();
    match val {
        None => 1,
        Some(last) => {
            proof {
                assert(whole.take(whole.len() as int) =~= whole);
                assert(vec@ =~= whole.drop_last());
                assert(vec@ =~= whole.take(whole.len() - 1));
                assert forall|k: int| 0 <= k <= vec@.len() implies #[trigger] product(
                    vec@.take(k),
                ) <= u32::MAX by {
                    assert(vec@.take(k) =~= whole.take(k));
                }
                assert(product(vec@.take(vec@.len() as int)) <= u32::MAX);
                assert(vec@.take(vec@.len() as int) =~= vec@);
                assert(whole[whole.len() - 1] == last);
                assert(product(whole) == last * product(whole.drop_last()));
                assert(product(whole.take(whole.len() as int)) <= u32::MAX);
            }
            last * product_of_array(vec)
        },
    }
}

/// Multiplies `tail` by the product of the elements of `vec`, last
/// element first.
pub fn product_of_array_tail(vec: Vec<u32>, tail: u32) -> (result: u32)
    requires
        forall|k: int|
            0 <= k <= vec@.len() ==> tail * #[trigger] product(vec@.skip(k)) <= u32::MAX,
    ensures
        result == tail * product(vec@),
    decreases vec@.len(),
{
    let mut vec = vec;
    let ghost whole = vec@;
    let val = vec.pop();
    match val {
        None => {
            assert(tail * 1 == tail);
            tail
        },
        Some(last) => {
            proof {
                let n = whole.len() as int;
                assert(vec@ =~= whole.drop_last());
                assert(whole.skip(n - 1) =~= seq![last]);
                assert(seq![last].drop_last() =~= Seq::<u32>::empty());
                assert(product(seq![last]) == last * product(Seq::<u32>::empty()));
                assert(tail * product(whole.skip(n - 1)) <= u32::MAX);
                assert(tail * (last * 1) == tail * last) by (nonlinear_arith);
                assert forall|k: int| 0 <= k <= vec@.len() implies (tail * last) * #[trigger] product(
                    vec@.skip(k),
                ) <= u32::MAX by {
                    let suffix = whole.skip(k);
                    assert(suffix.drop_last() =~= vec@.skip(k));
                    assert(suffix[suffix.len() - 1] == last);
                    assert(product(suffix) == last * product(vec@.skip(k)));
                    assert(tail * (last * product(vec@.skip(k))) == (tail * last) * product(
                        vec@.skip(k),
                    )) by (nonlinear_arith);
                }
                assert(whole.skip(0) =~= whole);
                assert(vec@.skip(0) =~= vec@);
                assert(tail * (last * product(vec@)) == (tail * last) * product(vec@))
                    by (nonlinear_arith);
            }
            product_of_array_tail(vec, tail * last)
        },
    }
}

/// Computes the sum of the integers from 1 to `val`.
pub fn recursive_range(val: i32) -> (result: i32)
    requires
        val >= 1,
        triangle(val as nat) <= i32::MAX,
    ensures
        result == triangle(val as nat),
        2 * result == val * (val + 1),
    decreases val,
{
    proof {
        lemma_triangle_closed_form(val as nat);
    }
    if val == 1 {
        assert(triangle(1) == 1 + triangle(0));
        return 1;
    }
    proof {
        lemma_triangle_closed_form((val - 1) as nat);
    }
    val + recursive_range(val - 1)
}

/// Adds the sum of the integers from 0 to `val` to `tail`.
pub fn recursive_range_tail(val: i32, tail: i32) -> (result: i32)
    requires
        val >= 0,
        tail + triangle(val as nat) <= i32::MAX,
    ensures
        result == tail + triangle(val as nat),
    decreases val,
{
    if val == 0 {
        return tail;
    }
    proof {
        lemma_triangle_closed_form((val - 1) as nat);
    }
    recursive_range_tail(val - 1, val + tail)
}

} // verus!
