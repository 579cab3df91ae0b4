use vstd::prelude::*;

verus! {

/// One of the three values an attribute of a card can take.
///
/// The names carry no order: only equality and completion matter.
#[derive(Clone, Copy, Debug, PartialEq, Eq, Hash, Structural)]
pub enum Property {
    First,
    Second,
    Third,
}

/// The value that completes `a` and `b` to a balanced triple: `a` itself when
/// the two agree, and otherwise the one value that differs from both.
pub open spec fn completion(a: Property, b: Property) -> Property {
    if a == b {
        a
    } else if a != Property::First && b != Property::First {
        Property::First
    } else if a != Property::Second && b != Property::Second {
        Property::Second
    } else {
        Property::Third
    }
}

/// Three values are balanced when they are all equal or pairwise distinct.
pub open spec fn balanced(a: Property, b: Property, c: Property) -> bool {
    (a == b && b == c) || (a != b && b != c && a != c)
}

impl Property {
    /// The position of a value among the three: 0, 1 or 2.
    pub open spec fn index(self) -> int {
        match self {
            Property::First => 0,
            Property::Second => 1,
            Property::Third => 2,
        }
    }

    /// The value at position `k` (0, 1, or anything else for the last).
    pub open spec fn at(k: int) -> Property {
        if k == 0 {
            Property::First
        } else if k == 1 {
            Property::Second
        } else {
            Property::Third
        }
    }

    /// The value at position `k`.
    pub fn from_index(k: usize) -> (r: Property)
        requires
            k < 3,
        ensures
            r == Property::at(k as int),
            r.index() == k,
    {
        if k == 0 {
            Property::First
        } else if k == 1 {
            Property::Second
        } else {
            Property::Third
        }
    }

    /// The value that, together with `self` and `other`, forms a balanced triple.
    pub fn third(&self, other: &Self) -> (r: Self)
        ensures
            r == completion(*self, *other),
    {
        match (self, other) {
            (Property::First, Property::First) => Property::First,
            (Property::Second, Property::Second) => Property::Second,
            (Property::Third, Property::Third) => Property::Third,
            (Property::First, Property::Second) | (Property::Second, Property::First) => {
                Property::Third
            },
            (Property::First, Property::Third) | (Property::Third, Property::First) => {
                Property::Second
            },
            (Property::Second, Property::Third) | (Property::Third, Property::Second) => {
                Property::First
            },
        }
    }
}

/// Completion is defined on every pair and does not depend on the order of
/// its operands.
pub proof fn lemma_completion_commutative(a: Property, b: Property)
    ensures
        completion(a, b) == completion(b, a),
{
}

/// The two operands and their completion are either all equal (exactly when
/// the operands agree) or pairwise distinct (exactly when they differ).
pub proof fn lemma_completion_closure(a: Property, b: Property)
    ensures
        balanced(a, b, completion(a, b)),
        a == b ==> completion(a, b) == a,
        a != b ==> completion(a, b) != a && completion(a, b) != b,
{
}

/// Completing a value with a completion recovers the other operand.
pub proof fn lemma_completion_involutive(a: Property, b: Property)
    ensures
        completion(a, completion(a, b)) == b,
{
}

/// A third value completes the first two exactly when the three are balanced:
/// completion picks the unique balancing value.
pub proof fn lemma_completion_iff_balanced(a: Property, b: Property, c: Property)
    ensures
        (completion(a, b) == c) <==> balanced(a, b, c),
{
}

} // verus!
