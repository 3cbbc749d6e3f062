//! The high-precision decimal number type.
//!
//! A value is stored in fixed-point form: a sign together with a magnitude
//! counted in units of `10^-15`.  Every arithmetic operation either returns
//! an exact (for `+` and `-`) or truncated-towards-zero (for `*` and `/`)
//! result, or reports a [`MathError`] — never a silently wrong value.

use vstd::prelude::*;

verus! {

/// The fixed-point scale: a [`Dec`] with magnitude `m` denotes `m / SCALE`.
/// Fifteen fractional decimal digits, matching the convergence tolerance of
/// the logarithm series (`10^-15` is exactly one unit).
pub const SCALE: u128 = 1_000_000_000_000_000;

/// Errors surfaced by the arithmetic core.
#[derive(Clone, Copy, Debug, PartialEq, Eq, Structural)]
pub enum MathError {
    /// A magnitude left the representable range.
    Overflow,
    /// Division by an exactly zero divisor.
    DivisionByZero,
    /// A fractional power was requested of a non-positive base, or a
    /// logarithm of a negative argument.
    NonPositiveBase,
    /// A series (or a repeated multiplication) did not finish within its
    /// iteration cap.
    NonConvergence,
}

/// A high-precision decimal number: `(-1)^neg * mag / SCALE`.
///
/// The representation is canonical: zero is never marked negative, so
/// structural equality coincides with numeric equality.
#[derive(Clone, Copy, Debug, PartialEq, Eq, Structural)]
pub struct Dec {
    /// True exactly for strictly negative values.
    pub neg: bool,
    /// The magnitude, counted in units of `10^-15`.
    pub mag: u128,
}

/// Absolute value of a mathematical integer.
pub open spec fn abs_val(v: int) -> int {
    if v < 0 {
        -v
    } else {
        v
    }
}

/// The canonical representation of the scaled value `v` (meaningful when
/// `|v| <= u128::MAX`).
pub open spec fn dec_of(v: int) -> Dec {
    if v < 0 {
        Dec { neg: true, mag: (-v) as u128 }
    } else {
        Dec { neg: false, mag: v as u128 }
    }
}

/// The decimal zero.
pub open spec fn dec_zero() -> Dec {
    Dec { neg: false, mag: 0 }
}

/// The decimal one.
pub open spec fn dec_one() -> Dec {
    Dec { neg: false, mag: SCALE }
}

impl Dec {
    /// Canonical-representation invariant: zero carries a positive sign.
    pub open spec fn wf(self) -> bool {
        self.neg ==> self.mag != 0
    }

    /// The value as a mathematical integer in units of `10^-15`.
    pub open spec fn m(self) -> int {
        if self.neg {
            -(self.mag as int)
        } else {
            self.mag as int
        }
    }

    /// Whether the value is a mathematical integer.
    pub open spec fn is_int_spec(self) -> bool {
        self.mag % SCALE == 0
    }
}

pub proof fn lemma_dec_of(v: int)
    requires
        abs_val(v) <= u128::MAX,
    ensures
        dec_of(v).wf(),
        dec_of(v).m() == v,
{
}

/// Exact addition of the scaled values, overflow reported.
pub open spec fn spec_add(a: Dec, b: Dec) -> Result<Dec, MathError> {
    if abs_val(a.m() + b.m()) <= u128::MAX {
        Ok(dec_of(a.m() + b.m()))
    } else {
        Err(MathError::Overflow)
    }
}

/// Exact subtraction of the scaled values, overflow reported.
pub open spec fn spec_sub(a: Dec, b: Dec) -> Result<Dec, MathError> {
    if abs_val(a.m() - b.m()) <= u128::MAX {
        Ok(dec_of(a.m() - b.m()))
    } else {
        Err(MathError::Overflow)
    }
}

/// Division of a scaled product by `SCALE`, truncating towards zero.
pub open spec fn scale_down(p: int) -> int {
    if p >= 0 {
        p / (SCALE as int)
    } else {
        -((-p) / (SCALE as int))
    }
}

/// Multiplication: the product of the scaled values, re-scaled with
/// truncation towards zero; overflow of the intermediate product reported.
pub open spec fn spec_mul(a: Dec, b: Dec) -> Result<Dec, MathError> {
    if abs_val(a.m() * b.m()) <= u128::MAX {
        Ok(dec_of(scale_down(a.m() * b.m())))
    } else {
        Err(MathError::Overflow)
    }
}

/// Division, truncating towards zero.  A zero divisor is reported as
/// [`MathError::DivisionByZero`]; an unrepresentable scaled dividend as
/// [`MathError::Overflow`].
pub open spec fn spec_div(a: Dec, b: Dec) -> Result<Dec, MathError> {
    if b.m() == 0 {
        Err(MathError::DivisionByZero)
    } else if (a.mag as int) * (SCALE as int) <= u128::MAX {
        Ok(
            dec_of(
                if a.neg == b.neg {
                    ((a.mag as int) * (SCALE as int)) / (b.mag as int)
                } else {
                    -(((a.mag as int) * (SCALE as int)) / (b.mag as int))
                },
            ),
        )
    } else {
        Err(MathError::Overflow)
    }
}

proof fn lemma_mul_sign_mag(a: Dec, b: Dec)
    requires
        a.wf(),
        b.wf(),
    ensures
        a.m() * b.m() == (if a.neg == b.neg {
            (a.mag as int) * (b.mag as int)
        } else {
            -((a.mag as int) * (b.mag as int))
        }),
{
    let ma = a.mag as int;
    let mb = b.mag as int;
    if a.neg && b.neg {
        assert((-ma) * (-mb) == ma * mb) by (nonlinear_arith);
    } else if a.neg {
        assert((-ma) * mb == -(ma * mb)) by (nonlinear_arith);
    } else if b.neg {
        assert(ma * (-mb) == -(ma * mb)) by (nonlinear_arith);
    }
}

proof fn lemma_mul_nonneg(x: int, y: int)
    requires
        x >= 0,
        y >= 0,
    ensures
        x * y >= 0,
{
    assert(x * y >= 0) by (nonlinear_arith)
        requires
            x >= 0,
            y >= 0,
    ;
}

impl Dec {
    /// The decimal zero.
    pub fn zero() -> (r: Dec)
        ensures
            r == dec_zero(),
            r.wf(),
            r.m() == 0,
    {
        Dec { neg: false, mag: 0 }
    }

    /// The decimal one.
    pub fn one() -> (r: Dec)
        ensures
            r == dec_one(),
            r.wf(),
            r.m() == SCALE,
    {
        Dec { neg: false, mag: SCALE }
    }

    /// The decimal representation of the integer `v`.
    pub fn from_int(v: i64) -> (r: Dec)
        ensures
            r == dec_of(v * SCALE),
            r.wf(),
            r.m() == v * SCALE,
    {
        let neg = v < 0;
        let wide: i128 = v as i128;
        let units: u128 = if neg {
            (-wide) as u128
        } else {
            wide as u128
        };
        assert(units <= 9_223_372_036_854_775_808u128);
        let mag = units * SCALE;
        proof {
            assert(abs_val(v * SCALE) == units * (SCALE as int)) by (nonlinear_arith)
                requires
                    units == abs_val(v as int),
                    SCALE > 0,
            ;
            lemma_dec_of(v * SCALE);
        }
        Dec { neg: neg && mag != 0, mag }
    }

    /// The negation, always exact.
    pub fn negated(self) -> (r: Dec)
        requires
            self.wf(),
        ensures
            r == dec_of(-self.m()),
            r.wf(),
            r.m() == -self.m(),
    {
        if self.mag == 0 {
            self
        } else {
            Dec { neg: !self.neg, mag: self.mag }
        }
    }

    /// Whether the value is a mathematical integer.
    pub fn is_integer(&self) -> (r: bool)
        ensures
            r == self.is_int_spec(),
    {
        self.mag % SCALE == 0
    }

    /// Exact addition; see [`spec_add`].
    pub fn checked_add(self, rhs: Dec) -> (r: Result<Dec, MathError>)
        requires
            self.wf(),
            rhs.wf(),
        ensures
            r == spec_add(self, rhs),
            (r matches Ok(v) ==> v.wf()),
    {
        if self.neg == rhs.neg {
            match self.mag.checked_add(rhs.mag) {
                Some(mg) => Ok(Dec { neg: self.neg, mag: mg }),
                None => Err(MathError::Overflow),
            }
        } else if self.mag >= rhs.mag {
            let mg = self.mag - rhs.mag;
            Ok(Dec { neg: if mg == 0 { false } else { self.neg }, mag: mg })
        } else {
            Ok(Dec { neg: rhs.neg, mag: rhs.mag - self.mag })
        }
    }

    /// Exact subtraction; see [`spec_sub`].
    pub fn checked_sub(self, rhs: Dec) -> (r: Result<Dec, MathError>)
        requires
            self.wf(),
            rhs.wf(),
        ensures
            r == spec_sub(self, rhs),
            (r matches Ok(v) ==> v.wf()),
    {
        self.checked_add(rhs.negated())
    }

    /// Truncating multiplication; see [`spec_mul`].
    pub fn checked_mul(self, rhs: Dec) -> (r: Result<Dec, MathError>)
        requires
            self.wf(),
            rhs.wf(),
        ensures
            r == spec_mul(self, rhs),
            (r matches Ok(v) ==> v.wf()),
    {
        proof {
            lemma_mul_sign_mag(self, rhs);
            lemma_mul_nonneg(self.mag as int, rhs.mag as int);
        }
        match self.mag.checked_mul(rhs.mag) {
            Some(p) => {
                let q = p / SCALE;
                Ok(Dec { neg: if q == 0 { false } else { self.neg != rhs.neg }, mag: q })
            },
            None => Err(MathError::Overflow),
        }
    }

    /// Truncating division; see [`spec_div`].
    pub fn checked_div(self, rhs: Dec) -> (r: Result<Dec, MathError>)
        requires
            self.wf(),
            rhs.wf(),
        ensures
            r == spec_div(self, rhs),
            (r matches Ok(v) ==> v.wf()),
    {
        if rhs.mag == 0 {
            Err(MathError::DivisionByZero)
        } else {
            match self.mag.checked_mul(SCALE) {
                Some(p) => {
                    let q = p / rhs.mag;
                    Ok(Dec { neg: if q == 0 { false } else { self.neg != rhs.neg }, mag: q })
                },
                None => Err(MathError::Overflow),
            }
        }
    }
}

} // verus!
