//! Numbers that are known to be greater than zero.

use vstd::prelude::*;

verus! {

/// A number that is greater than zero.
///
/// The only way to make one is [`Positive::new`], which refuses zero, so a
/// zero quantity can never reach a book.
#[derive(Debug, Clone, Copy, PartialEq, Eq, PartialOrd, Ord, Hash)]
pub struct Positive {
    value: u64,
}

/// The number that [`Positive::new`] refused.
#[derive(Debug, Clone, Copy, PartialEq, Eq, Hash)]
pub struct NotPositive(pub u64);

impl View for Positive {
    type V = u64;

    closed spec fn view(&self) -> u64 {
        self.value
    }
}

impl Positive {
    #[verifier::type_invariant]
    spec fn above_zero(self) -> bool {
        self.value > 0
    }

    /// The positive number whose value is `value`; meaningful for `value > 0`.
    pub closed spec fn of(value: u64) -> Positive {
        Positive { value }
    }

    /// `of` and the view are inverse to each other.
    pub broadcast proof fn lemma_of_view(value: u64)
        ensures
            (#[trigger] Positive::of(value))@ == value,
    {
    }

    /// A positive number is determined by its value.
    pub broadcast proof fn lemma_view_of(p: Positive)
        ensures
            Positive::of(#[trigger] p@) == p,
    {
    }

    /// Accepts every number but zero.
    pub fn new(value: u64) -> (r: Result<Positive, NotPositive>)
        ensures
            value > 0 ==> r == Ok::<Positive, NotPositive>(Positive::of(value)),
            value == 0 ==> r == Err::<Positive, NotPositive>(NotPositive(value)),
    {
        if value > 0 {
            Ok(Positive { value })
        } else {
            Err(NotPositive(value))
        }
    }

    /// The number itself, which is never zero.
    pub fn into_inner(self) -> (r: u64)
        ensures
            r == self@,
            r > 0,
    {
        proof {
            use_type_invariant(&self);
        }
        self.value
    }

    /// The smallest positive number.
    pub fn one() -> (r: Positive)
        ensures
            r == Positive::of(1),
    {
        Positive { value: 1 }
    }
}

} // verus!
