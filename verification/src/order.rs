//! Ordering of `Scalar` values: comparison, maximum, minimum and clamping.
use crate::scalar::{sc, Scalar};
use crate::undefined::{CLAMP_UNORDERED, MAX_UNORDERED, MIN_UNORDERED};
use core::cmp::Ordering;
use vstd::prelude::*;

verus! {

pub open spec fn int_order(x: int, y: int) -> Ordering {
    if x < y {
        Ordering::Less
    } else if x == y {
        Ordering::Equal
    } else {
        Ordering::Greater
    }
}

pub open spec fn flip(o: Ordering) -> Ordering {
    match o {
        Ordering::Less => Ordering::Greater,
        Ordering::Equal => Ordering::Equal,
        Ordering::Greater => Ordering::Less,
    }
}

/// Ordering: normal values by value; zero below positive and above negative
/// values; positive exploded above everything, positive vanished below every
/// positive normal, and mirrored for negatives. Infinity and undefined states
/// are unordered, as are two exploded (or two vanished) values of one sign.
pub open spec fn compare_spec(a: Scalar, b: Scalar) -> Option<Ordering> {
    if a.normal_s() && b.normal_s() {
        Some(int_order(a.ival(), b.ival()))
    } else if a.undefined_s() || a.infinite_s() || b.undefined_s() || b.infinite_s() {
        None
    } else if a.zero_s() && b.zero_s() {
        Some(Ordering::Equal)
    } else if a.zero_s() {
        Some(
            if b.positive_s() {
                Ordering::Less
            } else {
                Ordering::Greater
            },
        )
    } else if b.zero_s() {
        Some(
            if a.positive_s() {
                Ordering::Greater
            } else {
                Ordering::Less
            },
        )
    } else if ((a.exploded_s() && b.exploded_s()) || (a.vanished_s() && b.vanished_s()))
        && a.negative_s() == b.negative_s() {
        None
    } else if a.positive_s() != b.positive_s() {
        Some(
            if a.positive_s() {
                Ordering::Greater
            } else {
                Ordering::Less
            },
        )
    } else if a.exploded_s() || b.vanished_s() {
        Some(
            if a.positive_s() {
                Ordering::Greater
            } else {
                Ordering::Less
            },
        )
    } else {
        Some(
            if a.positive_s() {
                Ordering::Less
            } else {
                Ordering::Greater
            },
        )
    }
}

/// `a > b` in the ordering of `compare_spec`.
pub open spec fn gt_spec(a: Scalar, b: Scalar) -> bool {
    compare_spec(a, b) == Some(Ordering::Greater)
}

/// `a < b` (false when unordered).
pub open spec fn lt_spec(a: Scalar, b: Scalar) -> bool {
    compare_spec(a, b) == Some(Ordering::Less)
}

/// `a <= b` (false when unordered).
pub open spec fn le_spec(a: Scalar, b: Scalar) -> bool {
    compare_spec(a, b) == Some(Ordering::Less) || compare_spec(a, b) == Some(Ordering::Equal)
}

/// `a >= b` (false when unordered).
pub open spec fn ge_spec(a: Scalar, b: Scalar) -> bool {
    compare_spec(a, b) == Some(Ordering::Greater) || compare_spec(a, b) == Some(Ordering::Equal)
}

/// A pair that `compare_spec` leaves unordered although neither is
/// undefined: one is infinite, or both are escapes of one class and sign.
pub open spec fn unordered_pair(a: Scalar, b: Scalar) -> bool {
    ||| a.infinite_s() || b.infinite_s()
    ||| a.vanished_s() && b.vanished_s() && ((a.positive_s() && b.positive_s()) || (
    a.negative_s() && b.negative_s()))
    ||| a.exploded_s() && b.exploded_s() && ((a.positive_s() && b.positive_s()) || (
    a.negative_s() && b.negative_s()))
}

/// The larger of two values; undefined propagates (first operand first) and
/// unordered pairs give the undefined max state.
pub open spec fn max_spec(a: Scalar, b: Scalar) -> Scalar {
    if !a.normal_s() || !b.normal_s() {
        if a.undefined_s() {
            a
        } else if b.undefined_s() {
            b
        } else if unordered_pair(a, b) {
            sc(MAX_UNORDERED, 0)
        } else if compare_spec(a, b) == Some(Ordering::Greater) {
            a
        } else {
            b
        }
    } else if compare_spec(a, b) == Some(Ordering::Greater) {
        a
    } else {
        b
    }
}

/// The smaller of two values, with the same special cases as `max_spec`.
pub open spec fn min_spec(a: Scalar, b: Scalar) -> Scalar {
    if !a.normal_s() || !b.normal_s() {
        if a.undefined_s() {
            a
        } else if b.undefined_s() {
            b
        } else if unordered_pair(a, b) {
            sc(MIN_UNORDERED, 0)
        } else if compare_spec(a, b) == Some(Ordering::Less) {
            a
        } else {
            b
        }
    } else if compare_spec(a, b) == Some(Ordering::Less) {
        a
    } else {
        b
    }
}

/// Clamp `x` into `[lo, hi]`; undefined bounds or value propagate, infinite
/// bounds or value, `lo > hi`, and unordered intermediate results give the
/// undefined clamp state.
pub open spec fn clamp_spec(x: Scalar, lo: Scalar, hi: Scalar) -> Scalar {
    if x.undefined_s() {
        x
    } else if lo.undefined_s() {
        lo
    } else if hi.undefined_s() {
        hi
    } else if x.infinite_s() || lo.infinite_s() || hi.infinite_s() {
        sc(CLAMP_UNORDERED, 0)
    } else if compare_spec(lo, hi) == Some(Ordering::Greater) {
        sc(CLAMP_UNORDERED, 0)
    } else if min_spec(max_spec(x, lo), hi).undefined_s() {
        sc(CLAMP_UNORDERED, 0)
    } else {
        min_spec(max_spec(x, lo), hi)
    }
}

impl Scalar {
    /// Three-way comparison (`None` when the pair is unordered).
    pub fn compare(&self, other: &Scalar) -> (r: Option<Ordering>)
        ensures
            r == compare_spec(*self, *other),
    {
        if self.is_normal() && other.is_normal() {
            let r = self.normal_order(other);
            return Some(
                if r < 0 {
                    Ordering::Less
                } else if r == 0 {
                    Ordering::Equal
                } else {
                    Ordering::Greater
                },
            );
        }
        if self.is_undefined() || self.is_infinite() || other.is_undefined()
            || other.is_infinite() {
            return None;
        }
        if self.is_zero() && other.is_zero() {
            return Some(Ordering::Equal);
        }
        if self.is_zero() {
            return Some(
                if other.is_positive() {
                    Ordering::Less
                } else {
                    Ordering::Greater
                },
            );
        }
        if other.is_zero() {
            return Some(
                if self.is_positive() {
                    Ordering::Greater
                } else {
                    Ordering::Less
                },
            );
        }
        if (self.exploded() && other.exploded()) || (self.vanished() && other.vanished()) {
            if self.is_negative() == other.is_negative() {
                return None;
            }
        }
        if self.is_positive() != other.is_positive() {
            return Some(
                if self.is_positive() {
                    Ordering::Greater
                } else {
                    Ordering::Less
                },
            );
        }
        if self.exploded() || other.vanished() {
            return Some(
                if self.is_positive() {
                    Ordering::Greater
                } else {
                    Ordering::Less
                },
            );
        }
        Some(
            if self.is_positive() {
                Ordering::Less
            } else {
                Ordering::Greater
            },
        )
    }

    fn unordered_with(&self, other: &Scalar) -> (r: bool)
        ensures
            r == unordered_pair(*self, *other),
    {
        if self.is_infinite() || other.is_infinite() {
            return true;
        }
        let same_sign = (self.is_positive() && other.is_positive()) || (self.is_negative()
            && other.is_negative());
        (self.vanished() && other.vanished() && same_sign) || (self.exploded()
            && other.exploded() && same_sign)
    }

    /// Strictly greater in the ordering of `compare`.
    pub fn greater_than(&self, other: &Scalar) -> (r: bool)
        ensures
            r == gt_spec(*self, *other),
    {
        match self.compare(other) {
            Some(Ordering::Greater) => true,
            _ => false,
        }
    }

    /// `self < other`; false when the two are unordered.
    pub fn less_than(&self, other: &Scalar) -> (r: bool)
        ensures
            r == lt_spec(*self, *other),
    {
        match self.compare(other) {
            Some(Ordering::Less) => true,
            _ => false,
        }
    }

    /// `self <= other`; false when the two are unordered.
    pub fn at_most(&self, other: &Scalar) -> (r: bool)
        ensures
            r == le_spec(*self, *other),
    {
        match self.compare(other) {
            Some(Ordering::Less) => true,
            Some(Ordering::Equal) => true,
            _ => false,
        }
    }

    /// `self >= other`; false when the two are unordered.
    pub fn at_least(&self, other: &Scalar) -> (r: bool)
        ensures
            r == ge_spec(*self, *other),
    {
        match self.compare(other) {
            Some(Ordering::Greater) => true,
            Some(Ordering::Equal) => true,
            _ => false,
        }
    }

    /// The larger of this Scalar and another.
    pub fn max(&self, other: Scalar) -> (r: Scalar)
        ensures
            r == max_spec(*self, other),
    {
        if !self.is_normal() || !other.is_normal() {
            if self.is_undefined() {
                return *self;
            }
            if other.is_undefined() {
                return other;
            }
            if self.unordered_with(&other) {
                return Scalar { fraction: MAX_UNORDERED, exponent: 0 };
            }
        }
        match self.compare(&other) {
            Some(Ordering::Greater) => *self,
            _ => other,
        }
    }

    /// The smaller of this Scalar and another.
    pub fn min(&self, other: Scalar) -> (r: Scalar)
        ensures
            r == min_spec(*self, other),
    {
        if !self.is_normal() || !other.is_normal() {
            if self.is_undefined() {
                return *self;
            }
            if other.is_undefined() {
                return other;
            }
            if self.unordered_with(&other) {
                return Scalar { fraction: MIN_UNORDERED, exponent: 0 };
            }
        }
        match self.compare(&other) {
            Some(Ordering::Less) => *self,
            _ => other,
        }
    }

    /// Constrains this Scalar to `[min, max]`.
    pub fn clamp(&self, min: Scalar, max: Scalar) -> (r: Scalar)
        ensures
            r == clamp_spec(*self, min, max),
    {
        if self.is_undefined() {
            return *self;
        }
        if min.is_undefined() {
            return min;
        }
        if max.is_undefined() {
            return max;
        }
        if self.is_infinite() || min.is_infinite() || max.is_infinite() {
            return Scalar { fraction: CLAMP_UNORDERED, exponent: 0 };
        }
        if let Some(Ordering::Greater) = min.compare(&max) {
            return Scalar { fraction: CLAMP_UNORDERED, exponent: 0 };
        }
        let clamped = self.max(min).min(max);
        if clamped.is_undefined() {
            return Scalar { fraction: CLAMP_UNORDERED, exponent: 0 };
        }
        clamped
    }
}


/// Comparison is antisymmetric: swapping the operands flips the ordering,
/// and an unordered pair stays unordered.
pub proof fn law_compare_antisymmetric(a: Scalar, b: Scalar)
    requires
        crate::basic::canonical(a),
        crate::basic::canonical(b),
    ensures
        compare_spec(a, b) == (match compare_spec(b, a) {
            Some(o) => Some(flip(o)),
            None => None,
        }),
{
    crate::basic::lemma_classes(a);
    crate::basic::lemma_classes(b);
}

/// The maximum of two values is one of them and neither is greater than
/// it; the minimum is one of them and neither is less than it; except for
/// an unordered pair of defined values, whose maximum and minimum are
/// undefined.
pub proof fn law_max_min_bound(a: Scalar, b: Scalar)
    requires
        crate::basic::canonical(a),
        crate::basic::canonical(b),
        a.undefined_s() || b.undefined_s() || !unordered_pair(a, b),
    ensures
        max_spec(a, b) == a || max_spec(a, b) == b,
        min_spec(a, b) == a || min_spec(a, b) == b,
        compare_spec(a, max_spec(a, b)) != Some(Ordering::Greater),
        compare_spec(b, max_spec(a, b)) != Some(Ordering::Greater),
        compare_spec(a, min_spec(a, b)) != Some(Ordering::Less),
        compare_spec(b, min_spec(a, b)) != Some(Ordering::Less),
{
    crate::basic::lemma_classes(a);
    crate::basic::lemma_classes(b);
    law_compare_antisymmetric(a, b);
}
} // verus!
