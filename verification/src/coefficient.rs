//! Consanguinity coefficients as exact binary fractions.
//!
//! A coefficient is held as a count of units of 2^-96. Every quantity the
//! calculation forms is a sum of quotients by powers of two, so each is
//! either held exactly or reported as out of range; nothing is rounded.

use vstd::prelude::*;

verus! {

/// The number of binary places behind the point.
pub const FRACTION_BITS: u32 = 96;

/// The count of units that stands for the number one.
pub const ONE_UNITS: u128 = 79228162514264337593543950336;

/// A consanguinity coefficient: `units` times 2^-96.
#[derive(Clone, Copy, Debug, PartialEq, Eq, Structural)]
pub struct Coefficient {
    /// The coefficient in units of 2^-96.
    pub units: u128,
}

impl Coefficient {
    /// The coefficient of a person whose parents share no ancestor.
    pub fn zero() -> (c: Self)
        ensures
            c.units == 0,
    {
        Coefficient { units: 0 }
    }

    /// Whether the coefficient is zero.
    pub fn is_zero(&self) -> (r: bool)
        ensures
            r == (self.units == 0),
    {
        self.units == 0
    }

    /// The whole part and the fraction, the fraction in units of 2^-96.
    pub fn split(&self) -> (parts: (u128, u128))
        ensures
            parts.0 == self.units / ONE_UNITS,
            parts.1 == self.units % ONE_UNITS,
            parts.0 * ONE_UNITS + parts.1 == self.units,
    {
        (self.units / ONE_UNITS, self.units % ONE_UNITS)
    }
}

/// `value` halved `times` times, where every halving is exact.
pub open spec fn halved(value: nat, times: nat) -> Option<nat>
    decreases times,
{
    if times == 0 {
        Some(value)
    } else if value % 2 != 0 {
        None
    } else {
        halved(value / 2, (times - 1) as nat)
    }
}

/// What one pair of paths adds to a coefficient: one plus the coefficient of
/// the shared ancestor, halved once more than the two paths have edges. All
/// in units of 2^-96.
pub open spec fn pair_term(edges: nat, inner: nat) -> Option<nat> {
    halved(ONE_UNITS as nat + inner, edges + 1)
}

/// `value` halved `times` times, or `None` where a halving would not be
/// exact.
pub fn halve(value: u128, times: u128) -> (r: Option<u128>)
    ensures
        match r {
            Some(v) => halved(value as nat, times as nat) == Some(v as nat),
            None => halved(value as nat, times as nat) is None,
        },
{
    let mut current: u128 = value;
    let mut left: u128 = times;
    while left > 0
        invariant
            left <= times,
            halved(value as nat, times as nat) == halved(current as nat, left as nat),
        decreases left,
    {
        if current % 2 != 0 {
            return None;
        }
        if current == 0 {
            proof {
                lemma_halved_zero(left as nat);
            }
            return Some(0);
        }
        current = current / 2;
        left = left - 1;
    }
    Some(current)
}

/// Zero can be halved any number of times.
pub proof fn lemma_halved_zero(times: nat)
    ensures
        halved(0, times) == Some(0nat),
    decreases times,
{
    if times > 0 {
        lemma_halved_zero((times - 1) as nat);
    }
}

/// What one pair of paths adds, one of `father_edges` edges and one of
/// `mother_edges`, given the units of the shared ancestor's coefficient.
/// `None` where the term is not a whole number of units.
pub fn pair_term_units(father_edges: usize, mother_edges: usize, inner: u128) -> (r: Option<u128>)
    ensures
        match r {
            Some(v) => pair_term((father_edges + mother_edges) as nat, inner as nat) == Some(
                v as nat,
            ),
            None => pair_term((father_edges + mother_edges) as nat, inner as nat) is None,
        },
{
    if inner % 2 != 0 {
        return None;
    }
    // One plus the inner coefficient may not fit, but half of it does.
    let half: u128 = ONE_UNITS / 2 + inner / 2;
    assert(half as nat == (ONE_UNITS as nat + inner as nat) / 2);
    let times: u128 = father_edges as u128 + mother_edges as u128;
    halve(half, times)
}

} // verus!
