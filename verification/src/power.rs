//! Exponentiation for the decimal type.
//!
//! Integer exponents are handled exactly, by repeated multiplication.
//! Fractional exponents go through the identity `base^n == exp(n * ln(base))`,
//! where both `ln` and `exp` are hand-rolled series truncated at a fixed
//! tolerance of one unit (`10^-15`).  Every loop carries an explicit
//! iteration cap; exceeding it is reported as
//! [`MathError::NonConvergence`], never a hang or a silent wrong answer.

use vstd::prelude::*;

use crate::decimal::abs_val;
use crate::decimal::dec_of;
use crate::decimal::dec_one;
use crate::decimal::dec_zero;
use crate::decimal::spec_add;
use crate::decimal::spec_div;
use crate::decimal::spec_mul;
use crate::decimal::spec_sub;
use crate::decimal::Dec;
use crate::decimal::MathError;
use crate::decimal::SCALE;

verus! {

/// Cap on the number of multiplications in one integer power.
pub const POW_ITER_CAP: u128 = 100_000;

/// Cap on the number of terms of the logarithm series.
pub const LN_ITER_CAP: u64 = 2_000;

/// Cap on the number of terms of the exponential series.
pub const EXP_ITER_CAP: u64 = 2_000;

/// Convergence tolerance in magnitude units: one unit is `10^-15`.
pub const TOL_MAG: u128 = 1;

/// `k` successive truncating multiplications by `base`, starting from one.
pub open spec fn ipow_loop(base: Dec, k: nat) -> Result<Dec, MathError>
    decreases k,
{
    if k == 0 {
        Ok(dec_one())
    } else {
        match ipow_loop(base, (k - 1) as nat) {
            Ok(r) => spec_mul(r, base),
            Err(e) => Err(e),
        }
    }
}

/// The integer power path: exact for exponents `0` and `1`, reciprocal of
/// the positive power for negative exponents, and otherwise repeated
/// multiplication `floor(n)` times (a fractional exponent handed directly
/// to this path is truncated to its integer part).
pub open spec fn spec_ipow(base: Dec, n: Dec) -> Result<Dec, MathError>
    decreases (if n.neg { 1int } else { 0int }),
{
    if n.m() == 0 {
        Ok(dec_one())
    } else if n.m() == SCALE {
        Ok(base)
    } else if n.neg {
        match spec_ipow(base, dec_of(-n.m())) {
            Ok(p) => spec_div(dec_one(), p),
            Err(e) => Err(e),
        }
    } else {
        if n.mag / SCALE > POW_ITER_CAP {
            Err(MathError::NonConvergence)
        } else {
            ipow_loop(base, (n.mag / SCALE) as nat)
        }
    }
}

/// One pass of the logarithm series
/// `ln(x) == 2 * sum_{i} y^(2i+1) / (2i+1)` with `y == (x-1)/(x+1)`:
/// starting at term index `i` with partial sum `acc`, the result is the
/// doubled sum once a term's magnitude falls to the tolerance, and
/// [`MathError::NonConvergence`] once `fuel` runs out.
pub open spec fn ln_loop(y: Dec, i: nat, fuel: nat, acc: Dec) -> Result<Dec, MathError>
    decreases fuel,
{
    if fuel == 0 {
        Err(MathError::NonConvergence)
    } else {
        let a = 2 * (i as int) + 1;
        match spec_div(dec_one(), dec_of(a * SCALE)) {
            Ok(inv_a) => match spec_ipow(y, dec_of(a * SCALE)) {
                Ok(p) => match spec_mul(inv_a, p) {
                    Ok(term) => match spec_add(acc, term) {
                        Ok(acc2) => if term.mag <= TOL_MAG {
                            spec_add(acc2, acc2)
                        } else {
                            ln_loop(y, i + 1, (fuel - 1) as nat, acc2)
                        },
                        Err(e) => Err(e),
                    },
                    Err(e) => Err(e),
                },
                Err(e) => Err(e),
            },
            Err(e) => Err(e),
        }
    }
}

/// The natural logarithm: an error for negative arguments, the degenerate
/// value zero for argument zero, and otherwise the truncated series on
/// `y == (x-1)/(x+1)`.
pub open spec fn spec_ln(x: Dec) -> Result<Dec, MathError> {
    if x.m() < 0 {
        Err(MathError::NonPositiveBase)
    } else if x.m() == 0 {
        Ok(dec_zero())
    } else {
        match spec_sub(x, dec_one()) {
            Ok(num) => match spec_add(x, dec_one()) {
                Ok(den) => match spec_div(num, den) {
                    Ok(y) => ln_loop(y, 0, LN_ITER_CAP as nat, dec_zero()),
                    Err(e) => Err(e),
                },
                Err(e) => Err(e),
            },
            Err(e) => Err(e),
        }
    }
}

/// One pass of the exponential series `exp(x) == sum_k x^k / k!`: each step
/// turns `term == x^k / k!` into `x^(k+1) / (k+1)!`, stopping once a term's
/// magnitude falls to the tolerance.
pub open spec fn exp_loop(x: Dec, k: nat, fuel: nat, term: Dec, acc: Dec) -> Result<
    Dec,
    MathError,
>
    decreases fuel,
{
    if fuel == 0 {
        Err(MathError::NonConvergence)
    } else {
        match spec_mul(term, x) {
            Ok(t1) => match spec_div(t1, dec_of(((k + 1) as int) * SCALE)) {
                Ok(t2) => match spec_add(acc, t2) {
                    Ok(acc2) => if t2.mag <= TOL_MAG {
                        Ok(acc2)
                    } else {
                        exp_loop(x, k + 1, (fuel - 1) as nat, t2, acc2)
                    },
                    Err(e) => Err(e),
                },
                Err(e) => Err(e),
            },
            Err(e) => Err(e),
        }
    }
}

/// The exponential function as its truncated series.
pub open spec fn spec_exp(x: Dec) -> Result<Dec, MathError> {
    exp_loop(x, 0, EXP_ITER_CAP as nat, dec_one(), dec_one())
}

/// The full power policy: the exact integer path whenever the exponent is a
/// mathematical integer; otherwise the reciprocal for negative exponents,
/// an error for non-positive bases, and `exp(n * ln(base))` for the rest.
pub open spec fn spec_pow(base: Dec, n: Dec) -> Result<Dec, MathError>
    decreases (if n.neg { 1int } else { 0int }),
{
    if n.is_int_spec() {
        spec_ipow(base, n)
    } else if n.neg {
        match spec_pow(base, dec_of(-n.m())) {
            Ok(p) => spec_div(dec_one(), p),
            Err(e) => Err(e),
        }
    } else if base.m() <= 0 {
        Err(MathError::NonPositiveBase)
    } else {
        match spec_ln(base) {
            Ok(l) => match spec_mul(n, l) {
                Ok(prod) => spec_exp(prod),
                Err(e) => Err(e),
            },
            Err(e) => Err(e),
        }
    }
}

proof fn lemma_ipow_loop_err(base: Dec, i: nat, j: nat)
    requires
        i <= j,
        ipow_loop(base, i) matches Err(_),
    ensures
        ipow_loop(base, j) == ipow_loop(base, i),
    decreases j,
{
    if j > i {
        lemma_ipow_loop_err(base, i, (j - 1) as nat);
    }
}

/// Integer exponentiation by repeated multiplication; see [`spec_ipow`].
#[verifier::loop_isolation(false)]
pub fn integer_power(base: Dec, n: Dec) -> (r: Result<Dec, MathError>)
    requires
        base.wf(),
        n.wf(),
    ensures
        r == spec_ipow(base, n),
        (r matches Ok(v) ==> v.wf()),
    decreases (if n.neg { 1int } else { 0int }),
{
    if n.mag == 0 {
        return Ok(Dec::one());
    }
    if !n.neg && n.mag == SCALE {
        return Ok(base);
    }
    if n.neg {
        let p = match integer_power(base, n.negated()) {
            Ok(v) => v,
            Err(e) => {
                return Err(e);
            },
        };
        return Dec::one().checked_div(p);
    }
    let k = n.mag / SCALE;
    if k > POW_ITER_CAP {
        return Err(MathError::NonConvergence);
    }
    let mut result = Dec::one();
    let mut idx: u128 = 0;
    while idx < k
        invariant
            result.wf(),
            idx <= k,
            ipow_loop(base, idx as nat) == Ok::<Dec, MathError>(result),
        decreases k - idx,
    {
        match result.checked_mul(base) {
            Ok(nr) => {
                result = nr;
                idx = idx + 1;
            },
            Err(e) => {
                proof {
                    lemma_ipow_loop_err(base, (idx + 1) as nat, k as nat);
                }
                return Err(e);
            },
        }
    }
    Ok(result)
}

/// The natural logarithm series; see [`spec_ln`].  Converges quickly for
/// arguments near one and may hit the iteration cap far from one — a known
/// precision limitation that is reported, not hidden.
#[verifier::loop_isolation(false)]
pub fn ln(x: Dec) -> (r: Result<Dec, MathError>)
    requires
        x.wf(),
    ensures
        r == spec_ln(x),
        (r matches Ok(v) ==> v.wf()),
{
    if x.neg {
        return Err(MathError::NonPositiveBase);
    }
    if x.mag == 0 {
        return Ok(Dec::zero());
    }
    let one = Dec::one();
    let num = match x.checked_sub(one) {
        Ok(v) => v,
        Err(e) => {
            return Err(e);
        },
    };
    let den = match x.checked_add(one) {
        Ok(v) => v,
        Err(e) => {
            return Err(e);
        },
    };
    let y = match num.checked_div(den) {
        Ok(v) => v,
        Err(e) => {
            return Err(e);
        },
    };
    let mut acc = Dec::zero();
    let mut i: u64 = 0;
    while i < LN_ITER_CAP
        invariant
            acc.wf(),
            i <= LN_ITER_CAP,
            ln_loop(y, i as nat, (LN_ITER_CAP - i) as nat, acc) == ln_loop(
                y,
                0,
                LN_ITER_CAP as nat,
                dec_zero(),
            ),
        decreases LN_ITER_CAP - i,
    {
        let a: i64 = 2 * (i as i64) + 1;
        let a_dec = Dec::from_int(a);
        let inv_a = match Dec::one().checked_div(a_dec) {
            Ok(v) => v,
            Err(e) => {
                return Err(e);
            },
        };
        let p = match integer_power(y, a_dec) {
            Ok(v) => v,
            Err(e) => {
                return Err(e);
            },
        };
        let term = match inv_a.checked_mul(p) {
            Ok(v) => v,
            Err(e) => {
                return Err(e);
            },
        };
        acc = match acc.checked_add(term) {
            Ok(v) => v,
            Err(e) => {
                return Err(e);
            },
        };
        if term.mag <= TOL_MAG {
            return acc.checked_add(acc);
        }
        i = i + 1;
    }
    Err(MathError::NonConvergence)
}

/// The exponential series; see [`spec_exp`].
#[verifier::loop_isolation(false)]
pub fn exp(x: Dec) -> (r: Result<Dec, MathError>)
    requires
        x.wf(),
    ensures
        r == spec_exp(x),
        (r matches Ok(v) ==> v.wf()),
{
    let mut term = Dec::one();
    let mut acc = Dec::one();
    let mut k: u64 = 0;
    while k < EXP_ITER_CAP
        invariant
            term.wf(),
            acc.wf(),
            k <= EXP_ITER_CAP,
            exp_loop(x, k as nat, (EXP_ITER_CAP - k) as nat, term, acc) == spec_exp(x),
        decreases EXP_ITER_CAP - k,
    {
        let t1 = match term.checked_mul(x) {
            Ok(v) => v,
            Err(e) => {
                return Err(e);
            },
        };
        let kd = Dec::from_int((k + 1) as i64);
        let t2 = match t1.checked_div(kd) {
            Ok(v) => v,
            Err(e) => {
                return Err(e);
            },
        };
        let acc2 = match acc.checked_add(t2) {
            Ok(v) => v,
            Err(e) => {
                return Err(e);
            },
        };
        if t2.mag <= TOL_MAG {
            return Ok(acc2);
        }
        term = t2;
        acc = acc2;
        k = k + 1;
    }
    Err(MathError::NonConvergence)
}

/// Exponentiation for arbitrary exponents; see [`spec_pow`].  The integer
/// path is exact; the fractional path goes through `exp(n * ln(base))` and
/// demands a strictly positive base.
pub fn power(base: Dec, n: Dec) -> (r: Result<Dec, MathError>)
    requires
        base.wf(),
        n.wf(),
    ensures
        r == spec_pow(base, n),
        (r matches Ok(v) ==> v.wf()),
    decreases (if n.neg { 1int } else { 0int }),
{
    if n.is_integer() {
        return integer_power(base, n);
    }
    if n.neg {
        let p = match power(base, n.negated()) {
            Ok(v) => v,
            Err(e) => {
                return Err(e);
            },
        };
        return Dec::one().checked_div(p);
    }
    if base.neg || base.mag == 0 {
        return Err(MathError::NonPositiveBase);
    }
    let l = match ln(base) {
        Ok(v) => v,
        Err(e) => {
            return Err(e);
        },
    };
    let prod = match n.checked_mul(l) {
        Ok(v) => v,
        Err(e) => {
            return Err(e);
        },
    };
    exp(prod)
}

/// Law: raising a positive value to the exponent one returns it unchanged.
pub proof fn lemma_power_of_one(x: Dec)
    requires
        x.wf(),
        x.m() > 0,
    ensures
        spec_pow(x, dec_one()) == Ok::<Dec, MathError>(x),
{
    assert(dec_one().is_int_spec());
    assert(dec_one().m() == SCALE);
}

/// Law: raising a positive value to the exponent zero yields one.
pub proof fn lemma_power_of_zero_exponent(x: Dec)
    requires
        x.wf(),
        x.m() > 0,
    ensures
        spec_pow(x, dec_zero()) == Ok::<Dec, MathError>(dec_one()),
{
    assert(dec_zero().is_int_spec());
}

/// Law: for a positive base and a positive integer exponent `n`, the power
/// at `-n` is exactly the reciprocal of the power at `n` — the two sides
/// are the same result, errors included.
pub proof fn lemma_power_negation(x: Dec, n: Dec)
    requires
        x.wf(),
        n.wf(),
        x.m() > 0,
        n.m() > 0,
        n.is_int_spec(),
    ensures
        spec_pow(x, dec_of(-n.m())) == (match spec_pow(x, n) {
            Ok(p) => spec_div(dec_one(), p),
            Err(e) => Err(e),
        }),
{
    let nn = dec_of(-n.m());
    assert(nn.mag == n.mag);
    assert(nn.is_int_spec());
    assert(dec_of(-nn.m()) == n);
}

/// Law: the logarithm of one is exactly zero.
pub proof fn lemma_ln_one()
    ensures
        spec_ln(dec_one()) == Ok::<Dec, MathError>(dec_zero()),
{
    let one = dec_one();
    let zero = dec_zero();
    assert(spec_sub(one, one) == Ok::<Dec, MathError>(zero));
    assert(spec_add(one, one) == Ok::<Dec, MathError>(dec_of(2 * SCALE)));
    let two = dec_of(2 * SCALE);
    assert(spec_div(zero, two) == Ok::<Dec, MathError>(zero));
    assert(dec_of(1 * SCALE) == one);
    assert(spec_div(one, one) == Ok::<Dec, MathError>(one));
    assert(spec_ipow(zero, one) == Ok::<Dec, MathError>(zero));
    assert(spec_mul(one, zero) == Ok::<Dec, MathError>(zero));
    assert(spec_add(zero, zero) == Ok::<Dec, MathError>(zero));
    assert(ln_loop(zero, 0, LN_ITER_CAP as nat, zero) == Ok::<Dec, MathError>(zero));
}

} // verus!
