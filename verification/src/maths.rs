//! Arbitrary-precision factorial, used to scale an order-polytope volume
//! into a linear-extension count.

use crate::rat::big_from_u64;
use crate::rat::big_mul;
use crate::rat::int_of;
use num_bigint::BigInt;
use vstd::prelude::*;

verus! {

/// The factorial of `n`.
pub open spec fn spec_factorial(n: nat) -> int
    decreases n,
{
    if n == 0 {
        1
    } else {
        n * spec_factorial((n - 1) as nat)
    }
}

/// The decimal digit character for `d`.
pub open spec fn digit_char(d: int) -> char {
    if d == 0 {
        '0'
    } else if d == 1 {
        '1'
    } else if d == 2 {
        '2'
    } else if d == 3 {
        '3'
    } else if d == 4 {
        '4'
    } else if d == 5 {
        '5'
    } else if d == 6 {
        '6'
    } else if d == 7 {
        '7'
    } else if d == 8 {
        '8'
    } else {
        '9'
    }
}

/// The decimal rendering of a non-negative integer.
pub open spec fn dec_spec(n: int) -> Seq<char>
    decreases n,
{
    if n < 10 {
        seq![digit_char(n)]
    } else {
        dec_spec(n / 10) + seq![digit_char(n % 10)]
    }
}

/// The one-character string of a decimal digit.
fn digit_str(d: u64) -> (r: &'static str)
    requires
        d < 10,
    ensures
        r@ == seq![digit_char(d as int)],
{
    let r: &'static str = if d == 0 {
        "0"
    } else if d == 1 {
        "1"
    } else if d == 2 {
        "2"
    } else if d == 3 {
        "3"
    } else if d == 4 {
        "4"
    } else if d == 5 {
        "5"
    } else if d == 6 {
        "6"
    } else if d == 7 {
        "7"
    } else if d == 8 {
        "8"
    } else {
        "9"
    };
    proof {
        reveal_strlit("0");
        reveal_strlit("1");
        reveal_strlit("2");
        reveal_strlit("3");
        reveal_strlit("4");
        reveal_strlit("5");
        reveal_strlit("6");
        reveal_strlit("7");
        reveal_strlit("8");
        reveal_strlit("9");
        assert(r@ =~= seq![digit_char(d as int)]);
    }
    r
}

/// The decimal text of `x`.
pub fn u64_to_string(x: u64) -> (r: String)
    ensures
        r@ == dec_spec(x as int),
    decreases x,
{
    if x < 10 {
        let s = String::from_str(digit_str(x));
        s
    } else {
        let mut s = u64_to_string(x / 10);
        s.append(digit_str(x % 10));
        proof {
            assert(s@ =~= dec_spec(x as int));
        }
        s
    }
}

/// The exact factorial of `n` as a big integer.
pub fn factorial(n: usize) -> (r: BigInt)
    ensures
        int_of(r) == spec_factorial(n as nat),
{
    let mut f = big_from_u64(1);
    let mut i: usize = 0;
    while i < n
        invariant
            0 <= i <= n,
            int_of(f) == spec_factorial(i as nat),
        decreases n - i,
    {
        i = i + 1;
        let step = big_from_u64(i as u64);
        f = big_mul(&f, &step);
        proof {
            assert(int_of(f) == spec_factorial((i - 1) as nat) * i);
            assert(spec_factorial(i as nat) == i * spec_factorial((i - 1) as nat));
            assert(spec_factorial((i - 1) as nat) * i == i * spec_factorial((i - 1) as nat))
                by (nonlinear_arith);
        }
    }
    f
}

} // verus!
