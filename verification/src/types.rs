//! Positions in a chain, and what equality means for values of any type.

use vstd::prelude::*;
use vstd::std_specs::cmp::PartialEqSpec;

verus! {

/// The position of a block in its chain.
#[derive(Clone, Copy, Debug, PartialEq, Eq, Structural, PartialOrd, Ord, Hash)]
pub struct Height(u64);

impl View for Height {
    type V = u64;

    closed spec fn view(&self) -> u64 {
        self.0
    }
}

impl Height {
    /// Returns the height with the given number.
    pub fn new(height: u64) -> (r: Self)
        ensures
            r@ == height,
    {
        Height(height)
    }

    /// Returns the number of the height.
    pub fn get(self) -> (height: u64)
        ensures
            height == self@,
    {
        self.0
    }
}

/// A height is its number: two heights with the same number are the same height.
pub proof fn law_height_is_its_number(a: Height, b: Height)
    ensures
        a@ == b@ <==> a == b,
{
}

/// `==` on values of the type is a function of the two values.
pub open spec fn comparable<T: PartialEq>() -> bool {
    T::obeys_eq_spec()
}

/// `==` holds of the two values, where they are `comparable`.
pub open spec fn same<T: PartialEq>(a: T, b: T) -> bool {
    a.eq_spec(&b)
}

/// `a == b` may come out as the answer. Where values of the type are `comparable`, there
/// is one such answer.
pub open spec fn tells<T: PartialEq>(a: T, b: T, answer: bool) -> bool {
    call_ensures(<T as PartialEq>::eq, (&a, &b), answer)
}

/// `==` on values of the type keeps to what `Eq` asks for: the same question has one
/// answer, either way around, and a value equals itself.
pub open spec fn lawful<T: PartialEq>() -> bool {
    &&& forall|a: T, answer: bool| #[trigger] tells(a, a, answer) ==> answer
    &&& forall|a: T, b: T, answer: bool, again: bool| #[trigger]
        tells(a, b, answer) && #[trigger] tells(a, b, again) ==> answer == again
    &&& forall|a: T, b: T, answer: bool, again: bool| #[trigger]
        tells(a, b, answer) && #[trigger] tells(b, a, again) ==> answer == again
}

/// `==` on values of the type is an equivalence.
pub open spec fn equivalence<T: PartialEq>() -> bool {
    &&& comparable::<T>()
    &&& forall|a: T| #[trigger] same(a, a)
    &&& forall|a: T, b: T| #[trigger] same(a, b) ==> same(b, a)
    &&& forall|a: T, b: T, c: T| #[trigger] same(a, b) && #[trigger] same(b, c) ==> same(a, c)
}

/// An equivalence is asked for no more than what `Eq` promises of `==`: that it is
/// reflexive, symmetric and transitive.
pub proof fn law_equivalence_asks_for_what_eq_promises<T: PartialEq>()
    requires
        T::obeys_eq_spec(),
        forall|a: T| #[trigger] a.eq_spec(&a),
        forall|a: T, b: T| #[trigger] a.eq_spec(&b) ==> b.eq_spec(&a),
        forall|a: T, b: T, c: T| #[trigger]
            a.eq_spec(&b) && #[trigger] b.eq_spec(&c) ==> a.eq_spec(&c),
    ensures
        equivalence::<T>(),
        forall|a: T, b: T| #[trigger] same(a, b) == a.eq_spec(&b),
{
}

/// Values of a type with an equivalence are told apart by it alone, and lawfully.
pub proof fn law_equivalence_is_lawful<T: PartialEq>()
    requires
        equivalence::<T>(),
    ensures
        lawful::<T>(),
        forall|a: T, b: T, answer: bool| #[trigger] tells(a, b, answer) ==> answer == same(a, b),
{
    assert forall|a: T, b: T, answer: bool| #[trigger] tells(a, b, answer) implies answer == same(
        a,
        b,
    ) by {}
}

} // verus!
