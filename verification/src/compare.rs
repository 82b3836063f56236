//! Comparing a `Char` with a `char`: by scalar value, with "no character"
//! behind every character.

use crate::char::{char_code, Char, ABSENT};
use std::cmp::Ordering;
use vstd::prelude::*;
use vstd::std_specs::cmp::{PartialEqSpecImpl, PartialOrdSpecImpl};

verus! {

/// The number by which values are ordered: the scalar value of a
/// character, and for "no character" a number above every scalar value.
pub open spec fn rank(x: Option<char>) -> u32 {
    match x {
        Some(c) => c as u32,
        None => ABSENT,
    }
}

/// How two numbers stand to each other.
pub open spec fn order_of(a: u32, b: u32) -> Option<Ordering> {
    if a < b {
        Some(Ordering::Less)
    } else if a == b {
        Some(Ordering::Equal)
    } else {
        Some(Ordering::Greater)
    }
}

/// A value equals a character if it stands for that character.
impl PartialEq<char> for Char {
    fn eq(&self, other: &char) -> (r: bool) {
        self.scalar() == char_code(*other)
    }
}

impl PartialEqSpecImpl<char> for Char {
    open spec fn obeys_eq_spec() -> bool {
        true
    }

    open spec fn eq_spec(&self, other: &char) -> bool {
        self@ == Some(*other)
    }
}

/// A character equals a value if the value stands for it.
impl PartialEq<Char> for char {
    fn eq(&self, other: &Char) -> (r: bool) {
        char_code(*self) == other.scalar()
    }
}

impl PartialEqSpecImpl<Char> for char {
    open spec fn obeys_eq_spec() -> bool {
        true
    }

    open spec fn eq_spec(&self, other: &Char) -> bool {
        other@ == Some(*self)
    }
}

/// Values and characters are ordered by scalar value; "no character" comes
/// after every character.
impl PartialOrd<char> for Char {
    fn partial_cmp(&self, other: &char) -> (r: Option<Ordering>) {
        let a: u32 = self.scalar();
        let b: u32 = char_code(*other);
        if a < b {
            Some(Ordering::Less)
        } else if a == b {
            Some(Ordering::Equal)
        } else {
            Some(Ordering::Greater)
        }
    }
}

impl PartialOrdSpecImpl<char> for Char {
    open spec fn obeys_partial_cmp_spec() -> bool {
        true
    }

    open spec fn partial_cmp_spec(&self, other: &char) -> Option<Ordering> {
        order_of(rank(self@), rank(Some(*other)))
    }
}

impl PartialOrd<Char> for char {
    fn partial_cmp(&self, other: &Char) -> (r: Option<Ordering>) {
        let a: u32 = char_code(*self);
        let b: u32 = other.scalar();
        if a < b {
            Some(Ordering::Less)
        } else if a == b {
            Some(Ordering::Equal)
        } else {
            Some(Ordering::Greater)
        }
    }
}

impl PartialOrdSpecImpl<Char> for char {
    open spec fn obeys_partial_cmp_spec() -> bool {
        true
    }

    open spec fn partial_cmp_spec(&self, other: &Char) -> Option<Ordering> {
        order_of(rank(Some(*self)), rank(other@))
    }
}

} // verus!
