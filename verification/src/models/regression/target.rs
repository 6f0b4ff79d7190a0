//! Real-valued targets, and how far a prediction is from one.
use crate::dyadic::{
    at_most_of, f64_value, minus_of, normal_of, plus_of, quotient, ratio_of, scaled_floor, square,
    trim_of, Dyadic, FRACTIONS, INFINITY_BITS, SIGN_BIT,
};
use vstd::prelude::*;

verus! {

/// A target, given as a double-precision number.
#[derive(Clone, Copy, Debug)]
pub enum Target {
    /// A number.
    Finite { negative: bool, size: Dyadic },
    /// Plus infinity.
    Above,
    /// Minus infinity. What is not a number counts as this.
    Below,
}

/// The distance between the prediction `v` and a number, rounded to 53 significant bits.
pub open spec fn distance_of(v: int, negative: bool, size: Dyadic) -> (int, int) {
    let a = normal_of((v, 0));
    let b = normal_of(size.pair());
    if negative {
        plus_of(a, b)
    } else if a == b {
        (0int, 0int)
    } else if at_most_of(a, b) {
        minus_of(b, a)
    } else {
        minus_of(a, b)
    }
}

/// The bound on a drawn fraction for feedback on the prediction `v` with the threshold `t`:
/// the square of the relative error, at most 1. Every operation rounds to 53 significant bits.
pub open spec fn error_bound(v: int, y: Target, t: int) -> int {
    match y {
        Target::Finite { negative, size } => {
            let d = distance_of(v, negative, size);
            if d.0 == 0 {
                0
            } else {
                let q = ratio_of(d.0, t);
                let e = normal_of((q.0, q.1 + d.1));
                let p = trim_of(e.0 * e.0, 2 * e.1);
                scaled_floor(p.0, p.1)
            }
        },
        _ => FRACTIONS as int,
    }
}

/// The target is above the prediction `v`.
pub open spec fn is_above(v: int, y: Target) -> bool {
    match y {
        Target::Finite { negative, size } => !negative && !at_most_of(
            normal_of(size.pair()),
            normal_of((v, 0)),
        ),
        Target::Above => true,
        Target::Below => false,
    }
}

impl Target {
    pub open spec fn wf(self) -> bool {
        self matches Target::Finite { negative, size } ==> size.is_finite()
    }

    /// The target with the bit pattern `bits` of a double.
    pub fn from_bits(bits: u64) -> (r: Target)
        ensures
            r.wf(),
            ({
                let size = (bits as int % SIGN_BIT as int) as u64;
                if size < INFINITY_BITS {
                    r == (Target::Finite { negative: bits >= SIGN_BIT, size: f64_value(size) })
                } else if bits == INFINITY_BITS {
                    r == Target::Above
                } else {
                    r == Target::Below
                }
            }),
    {
        let negative: bool = bits >= SIGN_BIT;
        let size: u64 = bits % SIGN_BIT;
        if bits == INFINITY_BITS {
            return Target::Above;
        }
        if size >= INFINITY_BITS {
            return Target::Below;
        }
        match Dyadic::from_bits(size) {
            Some(d) => Target::Finite { negative, size: d },
            None => Target::Below,
        }
    }

    /// The bound on a drawn fraction for feedback on the prediction `v`.
    pub fn error_gate(&self, v: i32, t: i32) -> (r: u64)
        requires
            self.wf(),
            0 <= v,
            t >= 1,
        ensures
            r == error_bound(v as int, *self, t as int),
    {
        match *self {
            Target::Finite { negative, size } => {
                let a: Dyadic = Dyadic { mant: v as u64, exp: 0 }.normal();
                let b: Dyadic = size.normal();
                let d: Dyadic = if negative {
                    a.plus(&b)
                } else if a.mant == b.mant && a.exp == b.exp {
                    Dyadic { mant: 0, exp: 0 }
                } else if a.is_at_most(&b) {
                    b.minus(&a)
                } else {
                    a.minus(&b)
                };
                if d.mant == 0 {
                    return 0;
                }
                let e: Dyadic = quotient(&d, t as u64).normal();
                square(&e).chance().floor
            },
            _ => FRACTIONS,
        }
    }

    /// Whether the target is above the prediction `v`.
    pub fn above(&self, v: i32) -> (r: bool)
        requires
            self.wf(),
            0 <= v,
        ensures
            r == is_above(v as int, *self),
    {
        match *self {
            Target::Finite { negative, size } => {
                let a: Dyadic = Dyadic { mant: v as u64, exp: 0 }.normal();
                let b: Dyadic = size.normal();
                !negative && !b.is_at_most(&a)
            },
            Target::Above => true,
            Target::Below => false,
        }
    }
}

} // verus!
