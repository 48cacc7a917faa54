//! How many elements a collection has: a count, or infinitely many.

use std::cmp::Ordering;
use vstd::prelude::*;
use vstd::string::StringExecFns;
use vstd::std_specs::cmp::PartialEqSpecImpl;
use vstd::std_specs::cmp::PartialOrdSpecImpl;

verus! {

/// The size of a collection.
#[derive(Debug, Clone, Copy)]
pub enum Cardinality {
    /// Exactly this many elements.
    Finite(usize),
    /// More than any count.
    Infinite,
}

impl PartialEq for Cardinality {
    /// Two counts are equal when they are the same number. `Infinite` equals
    /// nothing, itself included.
    fn eq(&self, other: &Self) -> (r: bool) {
        match (*self, *other) {
            (Cardinality::Finite(a), Cardinality::Finite(b)) => a == b,
            _ => false,
        }
    }
}

impl PartialEqSpecImpl for Cardinality {
    open spec fn obeys_eq_spec() -> bool {
        true
    }

    open spec fn eq_spec(&self, other: &Self) -> bool {
        match (*self, *other) {
            (Cardinality::Finite(a), Cardinality::Finite(b)) => a == b,
            _ => false,
        }
    }
}

impl PartialOrd for Cardinality {
    /// Counts are ordered as numbers and lie below `Infinite`; `Infinite` is not
    /// comparable with itself.
    fn partial_cmp(&self, other: &Self) -> (r: Option<Ordering>) {
        match (*self, *other) {
            (Cardinality::Finite(a), Cardinality::Finite(b)) => {
                if a < b {
                    Some(Ordering::Less)
                } else if a == b {
                    Some(Ordering::Equal)
                } else {
                    Some(Ordering::Greater)
                }
            },
            (Cardinality::Infinite, Cardinality::Infinite) => None,
            (Cardinality::Infinite, _) => Some(Ordering::Greater),
            (_, Cardinality::Infinite) => Some(Ordering::Less),
        }
    }
}

impl PartialOrdSpecImpl for Cardinality {
    open spec fn obeys_partial_cmp_spec() -> bool {
        true
    }

    open spec fn partial_cmp_spec(&self, other: &Self) -> Option<Ordering> {
        match (*self, *other) {
            (Cardinality::Finite(a), Cardinality::Finite(b)) => {
                if a < b {
                    Some(Ordering::Less)
                } else if a == b {
                    Some(Ordering::Equal)
                } else {
                    Some(Ordering::Greater)
                }
            },
            (Cardinality::Infinite, Cardinality::Infinite) => None,
            (Cardinality::Infinite, _) => Some(Ordering::Greater),
            (_, Cardinality::Infinite) => Some(Ordering::Less),
        }
    }
}

impl Cardinality {
    /// `self` is strictly smaller than `other`: a count below a larger count, or
    /// any count below `Infinite`.
    pub open spec fn below(self, other: Cardinality) -> bool {
        match (self, other) {
            (Cardinality::Finite(a), Cardinality::Finite(b)) => a < b,
            (Cardinality::Finite(_), Cardinality::Infinite) => true,
            _ => false,
        }
    }

    /// Whether `self` is strictly smaller than `other`.
    pub fn is_below(&self, other: &Cardinality) -> (r: bool)
        ensures
            r == self.below(*other),
    {
        match (*self, *other) {
            (Cardinality::Finite(a), Cardinality::Finite(b)) => a < b,
            (Cardinality::Finite(_), Cardinality::Infinite) => true,
            _ => false,
        }
    }
}

/// The character for the digit `d`.
pub open spec fn digit(d: nat) -> char {
    if d == 0 {
        '0'
    } else if d == 1 {
        '1'
    } else if d == 2 {
        '2'
    } else if d == 3 {
        '3'
    } else if d == 4 {
        '4'
    } else if d == 5 {
        '5'
    } else if d == 6 {
        '6'
    } else if d == 7 {
        '7'
    } else if d == 8 {
        '8'
    } else {
        '9'
    }
}

/// The digits of `n` in base ten, the most significant first.
pub open spec fn decimal(n: nat) -> Seq<char>
    decreases n,
{
    if n < 10 {
        seq![digit(n)]
    } else {
        decimal(n / 10).push(digit(n % 10))
    }
}

/// The digit `d` as text.
fn digit_text(d: usize) -> (r: &'static str)
    requires
        d < 10,
    ensures
        r@ == seq![digit(d as nat)],
{
    proof {
        reveal_strlit("0");
        reveal_strlit("1");
        reveal_strlit("2");
        reveal_strlit("3");
        reveal_strlit("4");
        reveal_strlit("5");
        reveal_strlit("6");
        reveal_strlit("7");
        reveal_strlit("8");
        reveal_strlit("9");
    }
    let r = if d == 0 {
        "0"
    } else if d == 1 {
        "1"
    } else if d == 2 {
        "2"
    } else if d == 3 {
        "3"
    } else if d == 4 {
        "4"
    } else if d == 5 {
        "5"
    } else if d == 6 {
        "6"
    } else if d == 7 {
        "7"
    } else if d == 8 {
        "8"
    } else {
        "9"
    };
    assert(r@ =~= seq![digit(d as nat)]);
    r
}

/// `n` written in base ten.
pub fn decimal_text(n: usize) -> (s: String)
    ensures
        s@ == decimal(n as nat),
    decreases n,
{
    let mut s = if n < 10 {
        String::new()
    } else {
        decimal_text(n / 10)
    };
    s.append(digit_text(n % 10));
    assert(s@ =~= decimal(n as nat));
    s
}

impl Cardinality {
    /// The cardinality as text: a count in base ten, `Infinite` as the sign of
    /// infinity.
    pub open spec fn text(self) -> Seq<char> {
        match self {
            Cardinality::Finite(n) => decimal(n as nat),
            Cardinality::Infinite => seq!['\u{221e}'],
        }
    }

    /// The cardinality as text.
    pub fn to_string(&self) -> (s: String)
        ensures
            s@ == self.text(),
    {
        match *self {
            Cardinality::Finite(n) => decimal_text(n),
            Cardinality::Infinite => {
                proof {
                    reveal_strlit("\u{221e}");
                }
                let s = String::from_str("\u{221e}");
                assert(s@ =~= seq!['\u{221e}']);
                s
            },
        }
    }
}

} // verus!
