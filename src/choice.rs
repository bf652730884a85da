//! The two-bit outcome of interval-evaluating a `min` or `max`.
use vstd::prelude::*;

verus! {

/// Which side of a `min` / `max` an interval evaluation proved dominant.
///
/// As bits: `Unknown = 00`, `Left = 01`, `Right = 10`, `Both = 11`.
#[derive(Copy, Clone, Debug, PartialEq, Eq, Structural)]
pub enum Choice {
    Unknown,
    Left,
    Right,
    Both,
}

/// The two-bit encoding of a choice.
pub open spec fn choice_bits(c: Choice) -> u8 {
    match c {
        Choice::Unknown => 0u8,
        Choice::Left => 1u8,
        Choice::Right => 2u8,
        Choice::Both => 3u8,
    }
}

/// The choice whose encoding is the low two bits of `b`.
pub open spec fn choice_of_bits(b: u8) -> Choice {
    let m = b & 3u8;
    if m == 0 {
        Choice::Unknown
    } else if m == 1 {
        Choice::Left
    } else if m == 2 {
        Choice::Right
    } else {
        Choice::Both
    }
}

/// A choice that proves one operand redundant.
pub open spec fn is_decided(c: Choice) -> bool {
    c == Choice::Left || c == Choice::Right
}

impl Choice {
    /// The two-bit encoding of this choice.
    pub fn bits(self) -> (r: u8)
        ensures
            r == choice_bits(self),
            r < 4,
    {
        match self {
            Choice::Unknown => 0,
            Choice::Left => 1,
            Choice::Right => 2,
            Choice::Both => 3,
        }
    }

    /// The choice encoded by the low two bits of `b`.
    pub fn from_bits(b: u8) -> (r: Choice)
        ensures
            r == choice_of_bits(b),
            b < 4 ==> choice_bits(r) == b,
    {
        let m: u8 = b & 3;
        assert(b < 4 ==> m == b) by (bit_vector)
            requires
                m == b & 3u8,
        ;
        if m == 0 {
            Choice::Unknown
        } else if m == 1 {
            Choice::Left
        } else if m == 2 {
            Choice::Right
        } else {
            Choice::Both
        }
    }

    /// Accumulates two observations of the same `min` / `max`: the bitwise
    /// OR of their encodings.
    pub fn merge(self, other: Choice) -> (r: Choice)
        ensures
            choice_bits(r) == choice_bits(self) | choice_bits(other),
    {
        let a: u8 = self.bits();
        let b: u8 = other.bits();
        let m: u8 = a | b;
        assert(m < 4 && m & 3u8 == m) by (bit_vector)
            requires
                a < 4,
                b < 4,
                m == a | b,
        ;
        Choice::from_bits(m)
    }

    /// The choice recorded by a `min` of `[a, b]` and `[c, d]`, given
    /// `b < c` (`lhs_below`) and `d < a` (`rhs_below`).
    pub fn of_min(lhs_below: bool, rhs_below: bool) -> (r: Choice)
        ensures
            r == (if lhs_below {
                Choice::Left
            } else if rhs_below {
                Choice::Right
            } else {
                Choice::Both
            }),
    {
        if lhs_below {
            Choice::Left
        } else if rhs_below {
            Choice::Right
        } else {
            Choice::Both
        }
    }

    /// The choice recorded by a `max` of `[a, b]` and `[c, d]`, given
    /// `a > d` (`lhs_above`) and `c > b` (`rhs_above`).
    pub fn of_max(lhs_above: bool, rhs_above: bool) -> (r: Choice)
        ensures
            r == (if lhs_above {
                Choice::Left
            } else if rhs_above {
                Choice::Right
            } else {
                Choice::Both
            }),
    {
        if lhs_above {
            Choice::Left
        } else if rhs_above {
            Choice::Right
        } else {
            Choice::Both
        }
    }

    /// Whether this choice proves one operand redundant.
    pub fn is_decided(self) -> (r: bool)
        ensures
            r == is_decided(self),
    {
        match self {
            Choice::Left | Choice::Right => true,
            _ => false,
        }
    }
}

} // verus!
