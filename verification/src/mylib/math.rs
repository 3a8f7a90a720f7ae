//! Math utilities.

use vstd::prelude::*;

verus! {

/// Multiply two numbers.
pub fn multiply(a: i32, b: i32) -> (r: i32)
    requires
        i32::MIN <= a * b <= i32::MAX,
    ensures
        r == a * b,
{
    a * b
}

/// Integer division rounding toward zero, as Rust's `/` does.
pub open spec fn div_toward_zero(a: int, b: int) -> int {
    if (a >= 0) == (b > 0) {
        if a >= 0 { a / b } else { (-a) / (-b) }
    } else {
        if a >= 0 { -(a / (-b)) } else { -((-a) / b) }
    }
}

/// Divide two numbers; `None` on division by zero.
pub fn divide(a: i32, b: i32) -> (r: Option<i32>)
    requires
        !(a == i32::MIN && b == -1),
    ensures
        b == 0 ==> r is None,
        b != 0 ==> r == Some(div_toward_zero(a as int, b as int) as i32),
{
    if b == 0 {
        None
    } else {
        let na = a as i64;
        let nb = b as i64;
        let ua: i64 = if na >= 0 { na } else { -na };
        let ub: i64 = if nb >= 0 { nb } else { -nb };
        let q: i64 = ua / ub;
        proof {
            assert(q <= ua) by (nonlinear_arith)
                requires
                    ua >= 0,
                    ub >= 1,
                    q == ua / ub,
            ;
            if q == ua && ua == 0x8000_0000 {
                assert(ub == 1) by (nonlinear_arith)
                    requires
                        ua > 0,
                        ub >= 1,
                        q == ua / ub,
                        q == ua,
                ;
            }
        }
        let r: i64 = if (na >= 0) == (nb > 0) { q } else { -q };
        Some(r as i32)
    }
}

} // verus!
