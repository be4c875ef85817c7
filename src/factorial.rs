//! The factorial of a small number.
use vstd::prelude::*;

verus! {

/// `n!`
pub open spec fn fact(n: nat) -> nat
    decreases n,
{
    if n == 0 {
        1
    } else {
        n * fact((n - 1) as nat)
    }
}

proof fn lemma_fact_monotone(i: nat, j: nat)
    requires
        i <= j,
    ensures
        fact(i) <= fact(j),
    decreases j - i,
{
    if i < j {
        lemma_fact_monotone(i, (j - 1) as nat);
        assert(fact((j - 1) as nat) <= j * fact((j - 1) as nat)) by (nonlinear_arith)
            requires
                j >= 1,
        ;
    }
}

/// The largest `n` whose factorial fits in a `u32`.
pub const MAX_FACTORIAL_ARG: u32 = 12;

/// `n!`, for `n` up to [`MAX_FACTORIAL_ARG`], beyond which it overflows.
pub fn factorial(n: u32) -> (r: u32)
    requires
        n <= MAX_FACTORIAL_ARG,
    ensures
        r == fact(n as nat),
{
    proof {
        reveal_with_fuel(fact, 13);
        assert(fact(12) == 479001600);
    }
    let mut result: u32 = 1;
    let mut i: u32 = 1;
    while i <= n
        invariant
            1 <= i <= n + 1,
            n <= 12,
            fact(12) == 479001600,
            result == fact((i - 1) as nat),
        decreases n + 1 - i,
    {
        proof {
            lemma_fact_monotone(i as nat, 12);
            assert(fact(i as nat) == i * fact((i - 1) as nat));
            assert(result * i == fact(i as nat)) by (nonlinear_arith)
                requires
                    result == fact((i - 1) as nat),
                    fact(i as nat) == i * fact((i - 1) as nat),
            ;
        }
        result = result * i;
        i = i + 1;
    }
    result
}

} // verus!
