//! Division of integers as the machine does it, and a test for multiples.

use vstd::arithmetic::div_mod::{
    lemma_fundamental_div_mod, lemma_mod_bound, lemma_mod_multiples_basic,
    lemma_mod_multiples_vanish, lemma_small_mod,
};
use vstd::prelude::*;

verus! {

/// The size of `n` without its sign.
pub open spec fn magnitude(n: int) -> nat {
    if n < 0 {
        (-n) as nat
    } else {
        n as nat
    }
}

/// The quotient of `a` by `b`, rounded towards 0.
pub open spec fn quotient(a: int, b: int) -> int {
    if (a < 0) == (b < 0) {
        (magnitude(a) / magnitude(b)) as int
    } else {
        -((magnitude(a) / magnitude(b)) as int)
    }
}

/// What is left of `a` when `b` is taken from it as often as the quotient rounded
/// towards 0 says: it has the sign of `a`.
pub open spec fn remainder(a: int, b: int) -> int {
    if a < 0 {
        -((magnitude(a) % magnitude(b)) as int)
    } else {
        (magnitude(a) % magnitude(b)) as int
    }
}

/// Whether `n` is a multiple of `d`.
pub open spec fn divides(d: int, n: int) -> bool {
    exists|q: int| n == #[trigger] (q * d)
}

/// The size of `n` without its sign.
pub fn abs_of(n: i64) -> (m: u64)
    ensures
        m == magnitude(n as int),
{
    if n < 0 {
        (-(n as i128)) as u64
    } else {
        n as u64
    }
}

/// The quotient of `a` by `b`, rounded towards 0.
pub fn trunc_div(a: i64, b: i64) -> (q: i64)
    requires
        b != 0,
        !(a == i64::MIN && b == -1),
    ensures
        q == quotient(a as int, b as int),
{
    let x = abs_of(a);
    let y = abs_of(b);
    let m = x / y;
    assert(m <= x) by (nonlinear_arith)
        requires
            m == x / y,
            y >= 1,
    ;
    assert(y > 1 ==> m <= x / 2) by (nonlinear_arith)
        requires
            m == x / y,
            y >= 1,
            x >= 0,
    ;
    if (a < 0) == (b < 0) {
        m as i64
    } else {
        (-(m as i128)) as i64
    }
}

/// What is left of `a` after the division by `b` that rounds towards 0.
pub fn trunc_rem(a: i64, b: i64) -> (r: i64)
    requires
        b != 0,
    ensures
        r == remainder(a as int, b as int),
{
    let x = abs_of(a);
    let y = abs_of(b);
    let m = x % y;
    if a < 0 {
        (-(m as i128)) as i64
    } else {
        m as i64
    }
}

/// A number is a multiple of another just when their sizes leave nothing in a division.
pub proof fn lemma_divides(d: int, n: int)
    requires
        d != 0,
    ensures
        divides(d, n) <==> magnitude(n) % magnitude(d) == 0,
{
    let x = magnitude(n) as int;
    let y = magnitude(d) as int;
    if x % y == 0 {
        lemma_fundamental_div_mod(x, y);
        let k = x / y;
        assert(x == y * k);
        let q = if (n < 0) == (d < 0) {
            k
        } else {
            -k
        };
        assert(n == q * d) by (nonlinear_arith)
            requires
                x == y * k,
                x == if n < 0 {
                    -n
                } else {
                    n
                },
                y == if d < 0 {
                    -d
                } else {
                    d
                },
                q == if (n < 0) == (d < 0) {
                    k
                } else {
                    -k
                },
        ;
    }
    if divides(d, n) {
        let q = choose|q: int| n == #[trigger] (q * d);
        let k = magnitude(q) as int;
        assert(x == k * y) by (nonlinear_arith)
            requires
                n == q * d,
                x == if n < 0 {
                    -n
                } else {
                    n
                },
                y == if d < 0 {
                    -d
                } else {
                    d
                },
                k == if q < 0 {
                    -q
                } else {
                    q
                },
        ;
        lemma_mod_multiples_basic(k, y);
    }
}

/// Whether `n` is a multiple of `d`.
pub fn is_multiple(n: i64, d: i64) -> (b: bool)
    requires
        d != 0,
    ensures
        b == divides(d as int, n as int),
{
    proof {
        lemma_divides(d as int, n as int);
    }
    abs_of(n) % abs_of(d) == 0
}

/// What is left of `x` by `n`, counted from 0 upwards also for a negative `x`.
pub fn wrap(x: i128, n: i128) -> (r: i128)
    requires
        n > 0,
        -0x4000_0000_0000_0000_0000_0000_0000_0000 <= x <= 0x4000_0000_0000_0000_0000_0000_0000_0000,
    ensures
        r == x % n,
        0 <= r < n,
{
    proof {
        lemma_mod_bound(x as int, n as int);
    }
    if x >= 0 {
        ((x as u128) % (n as u128)) as i128
    } else {
        let back: u128 = (-x) as u128;
        let left: u128 = back % (n as u128);
        proof {
            let q = (back as int) / (n as int);
            lemma_fundamental_div_mod(back as int, n as int);
            assert(x == (n - left) + (-(q + 1)) * n) by (nonlinear_arith)
                requires
                    back == n * q + left,
                    x == -(back as int),
            ;
            lemma_mod_multiples_vanish(-(q + 1), n - left, n as int);
            if left == 0 {
                lemma_mod_multiples_basic(1, n as int);
                assert((n - left) % (n as int) == 0) by {
                    assert(n - left == 1 * n);
                }
            } else {
                lemma_small_mod((n - left) as nat, n as nat);
            }
        }
        if left == 0 {
            0
        } else {
            n - left as i128
        }
    }
}

} // verus!
