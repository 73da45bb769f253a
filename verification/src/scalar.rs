//! The arithmetic that simulated streams carry.
//!
//! The engine is generic over the scalar type flowing through its channels.
//! A scalar must supply the handful of operations the primitive blocks use
//! (addition, multiplication, division, maximum, an exponential, and a few
//! constants), each as an executable function pinned to a specification
//! function, so that contracts about whole pipelines can be stated over the
//! mathematical operations alone.  Operations that can fail on a concrete
//! representation (overflow, division by zero) return `None` exactly on the
//! inputs their `*_ok` predicate rules out; the simulator treats such a
//! failure as a fatal numeric fault.
//!
//! The crate provides a verified `i64` instance, which the integer test
//! pipelines and the proved windowing laws use.  Callers may supply other
//! instances for payload types the verifier does not reason about.

use vstd::prelude::*;

verus! {

/// Arithmetic interface for the values carried on simulated channels.
pub trait Scalar: Sized + Copy {
    /// True when `a + b` is representable.
    spec fn add_ok(a: Self, b: Self) -> bool;

    /// The value of `a + b` on inputs where `add_ok` holds.
    spec fn add_s(a: Self, b: Self) -> Self;

    /// True when `a - b` is representable.
    spec fn sub_ok(a: Self, b: Self) -> bool;

    /// The value of `a - b` on inputs where `sub_ok` holds.
    spec fn sub_s(a: Self, b: Self) -> Self;

    /// True when `a * b` is representable.
    spec fn mul_ok(a: Self, b: Self) -> bool;

    /// The value of `a * b` on inputs where `mul_ok` holds.
    spec fn mul_s(a: Self, b: Self) -> Self;

    /// True when `a / b` is defined and representable.
    spec fn div_ok(a: Self, b: Self) -> bool;

    /// The value of `a / b` on inputs where `div_ok` holds.
    spec fn div_s(a: Self, b: Self) -> Self;

    /// The larger of `a` and `b`.
    spec fn max_s(a: Self, b: Self) -> Self;

    /// The exponential of `a`, as the instance models it.
    spec fn exp_s(a: Self) -> Self;

    /// The additive identity.
    spec fn zero_s() -> Self;

    /// The multiplicative identity.
    spec fn one_s() -> Self;

    /// The scalar standing for the machine integer `x`.
    spec fn of_u64_s(x: u64) -> Self;

    /// The iteration count a scalar denotes when a flatmap expands it.
    spec fn count_s(a: Self) -> u64;

    fn add(a: Self, b: Self) -> (r: Option<Self>)
        ensures
            r == if Self::add_ok(a, b) {
                Some(Self::add_s(a, b))
            } else {
                None::<Self>
            },
    ;

    fn sub(a: Self, b: Self) -> (r: Option<Self>)
        ensures
            r == if Self::sub_ok(a, b) {
                Some(Self::sub_s(a, b))
            } else {
                None::<Self>
            },
    ;

    fn mul(a: Self, b: Self) -> (r: Option<Self>)
        ensures
            r == if Self::mul_ok(a, b) {
                Some(Self::mul_s(a, b))
            } else {
                None::<Self>
            },
    ;

    fn div(a: Self, b: Self) -> (r: Option<Self>)
        ensures
            r == if Self::div_ok(a, b) {
                Some(Self::div_s(a, b))
            } else {
                None::<Self>
            },
    ;

    fn maxv(a: Self, b: Self) -> (r: Self)
        ensures
            r == Self::max_s(a, b),
    ;

    fn expv(a: Self) -> (r: Self)
        ensures
            r == Self::exp_s(a),
    ;

    fn zero() -> (r: Self)
        ensures
            r == Self::zero_s(),
    ;

    fn one() -> (r: Self)
        ensures
            r == Self::one_s(),
    ;

    fn of_u64(x: u64) -> (r: Self)
        ensures
            r == Self::of_u64_s(x),
    ;

    fn count(a: Self) -> (r: u64)
        ensures
            r == Self::count_s(a),
    ;
}

/// The verified integer instance.
///
/// Sums, differences and products are exact and fail outside the `i64`
/// range; division truncates toward zero as the machine division does.  The
/// exponential of this model is the identity: the integer instance exists to
/// exercise and prove the engine and the additive primitives, which never
/// apply it, while pipelines that need a genuine exponential run on a
/// floating-point instance outside the verified crate.
impl Scalar for i64 {
    open spec fn add_ok(a: i64, b: i64) -> bool {
        i64::MIN <= a + b <= i64::MAX
    }

    open spec fn add_s(a: i64, b: i64) -> i64 {
        if i64::MIN <= a + b <= i64::MAX {
            (a + b) as i64
        } else {
            0
        }
    }

    open spec fn sub_ok(a: i64, b: i64) -> bool {
        i64::MIN <= a - b <= i64::MAX
    }

    open spec fn sub_s(a: i64, b: i64) -> i64 {
        if i64::MIN <= a - b <= i64::MAX {
            (a - b) as i64
        } else {
            0
        }
    }

    open spec fn mul_ok(a: i64, b: i64) -> bool {
        i64::MIN <= a * b <= i64::MAX
    }

    open spec fn mul_s(a: i64, b: i64) -> i64 {
        if i64::MIN <= a * b <= i64::MAX {
            (a * b) as i64
        } else {
            0
        }
    }

    open spec fn div_ok(a: i64, b: i64) -> bool {
        b != 0 && !(a == i64::MIN && b == -1)
    }

    open spec fn div_s(a: i64, b: i64) -> i64 {
        if b != 0 && !(a == i64::MIN && b == -1) {
            truncated_div(a as int, b as int) as i64
        } else {
            0
        }
    }

    open spec fn max_s(a: i64, b: i64) -> i64 {
        if a < b {
            b
        } else {
            a
        }
    }

    open spec fn exp_s(a: i64) -> i64 {
        a
    }

    open spec fn zero_s() -> i64 {
        0
    }

    open spec fn one_s() -> i64 {
        1
    }

    open spec fn of_u64_s(x: u64) -> i64 {
        if x <= i64::MAX {
            x as i64
        } else {
            i64::MAX
        }
    }

    open spec fn count_s(a: i64) -> u64 {
        if a <= 0 {
            0
        } else {
            a as u64
        }
    }

    fn add(a: i64, b: i64) -> (r: Option<i64>) {
        a.checked_add(b)
    }

    fn sub(a: i64, b: i64) -> (r: Option<i64>) {
        a.checked_sub(b)
    }

    fn mul(a: i64, b: i64) -> (r: Option<i64>) {
        a.checked_mul(b)
    }

    fn div(a: i64, b: i64) -> (r: Option<i64>) {
        if b != 0 && !(a == i64::MIN && b == -1) {
            proof {
                lemma_truncated_div_fits(a as int, b as int);
            }
            a.checked_div(b)
        } else {
            None
        }
    }

    fn maxv(a: i64, b: i64) -> (r: i64) {
        if a < b {
            b
        } else {
            a
        }
    }

    fn expv(a: i64) -> (r: i64) {
        a
    }

    fn zero() -> (r: i64) {
        0
    }

    fn one() -> (r: i64) {
        1
    }

    fn of_u64(x: u64) -> (r: i64) {
        if x <= i64::MAX as u64 {
            x as i64
        } else {
            i64::MAX
        }
    }

    fn count(a: i64) -> (r: u64) {
        if a <= 0 {
            0
        } else {
            a as u64
        }
    }
}

/// Integer division truncated toward zero, the rounding the machine uses.
pub open spec fn truncated_div(x: int, d: int) -> int {
    if x >= 0 && d > 0 {
        x / d
    } else if x <= 0 && d < 0 {
        (-x) / (-d)
    } else if x < 0 && d > 0 {
        -((-x) / d)
    } else if x > 0 && d < 0 {
        -(x / (-d))
    } else {
        0
    }
}

/// On the inputs where `i64` division cannot fault, the quotient truncated
/// toward zero stays within the `i64` range.
proof fn lemma_truncated_div_fits(x: int, d: int)
    requires
        i64::MIN <= x <= i64::MAX,
        i64::MIN <= d <= i64::MAX,
        d != 0,
        !(x == i64::MIN && d == -1),
    ensures
        i64::MIN <= truncated_div(x, d) <= i64::MAX,
{
    if x >= 0 && d > 0 {
        assert(0 <= x / d <= x) by (nonlinear_arith)
            requires
                x >= 0 && d > 0,
        ;
    } else if x <= 0 && d < 0 {
        assert(0 <= (-x) / (-d) <= -x) by (nonlinear_arith)
            requires
                x <= 0 && d < 0,
        ;
        if x == i64::MIN && d <= -2 {
            assert(((-x) / (-d)) * 2 <= ((-x) / (-d)) * (-d) <= -x) by (nonlinear_arith)
                requires
                    x < 0 && d <= -2 && 0 <= (-x) / (-d),
            ;
        }
    } else if x < 0 && d > 0 {
        assert(0 <= (-x) / d <= -x) by (nonlinear_arith)
            requires
                x < 0 && d > 0,
        ;
    } else {
        assert(0 <= x / (-d) <= x) by (nonlinear_arith)
            requires
                x > 0 && d < 0,
        ;
    }
}

} // verus!
