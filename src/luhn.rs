//! The Luhn check on the decimal digits of a number.
use vstd::prelude::*;

verus! {

/// What digit `d` adds to the sum: itself, or where doubled, the sum of the
/// digits of its double.
pub open spec fn digit_value(d: nat, double: bool) -> nat {
    let v = if double {
        2 * d
    } else {
        d
    };
    v % 10 + v / 10
}

/// The sum of the values of the digits of `n`, from the last, doubling every
/// other one, starting with the last where `double` holds.
pub open spec fn luhn_sum(n: nat, double: bool) -> nat
    decreases n,
{
    if n == 0 {
        0
    } else {
        digit_value(n % 10, double) + luhn_sum(n / 10, !double)
    }
}

/// A number of one digit passes; a longer one passes where its last digit is
/// ten less the last digit of the Luhn sum of the digits before it.
pub open spec fn luhn_valid(payload: nat) -> bool {
    payload < 10 || 10 - luhn_sum(payload / 10, true) % 10 == payload % 10
}

proof fn lemma_luhn_sum_bound(n: nat, double: bool)
    ensures
        luhn_sum(n, double) <= 2 * n,
    decreases n,
{
    if n > 0 {
        lemma_luhn_sum_bound(n / 10, !double);
    }
}

/// Whether `payload` passes the Luhn check.
pub fn luhn_algorithm(payload: u64) -> (r: bool)
    ensures
        r == luhn_valid(payload as nat),
{
    if payload < 10 {
        return true;
    }
    let check_digit = payload % 10;
    let mut rest = payload / 10;
    let ghost total = luhn_sum(rest as nat, true);
    proof {
        lemma_luhn_sum_bound(rest as nat, true);
    }
    let mut sum: u64 = 0;
    let mut double = true;
    while rest > 0
        invariant
            sum + luhn_sum(rest as nat, double) == total,
            total <= 2 * (payload / 10),
        decreases rest,
    {
        let digit = rest % 10;
        let number = if double {
            digit * 2
        } else {
            digit
        };
        let value = number % 10 + number / 10;
        assert(value == digit_value(digit as nat, double));
        sum = sum + value;
        rest = rest / 10;
        double = !double;
    }
    10 - sum % 10 == check_digit
}

} // verus!
