//! Token counting.
use vstd::prelude::*;

verus! {

/// Measures the token cost of a text. A linter takes whatever counter it is
/// given, so nothing is promised of the number.
pub trait Counter {
    fn count(&self, text: &str) -> usize;
}

impl<C: Counter + ?Sized> Counter for Box<C> {
    /// Hands the text to the counter in the box and returns the number that it
    /// gives.
    fn count(&self, text: &str) -> (n: usize)
        ensures
            call_ensures(C::count, (&**self, text), n),
    {
        (**self).count(text)
    }
}

/// Whether `n` is a number that the counter may give for the text.
pub open spec fn counted<C: Counter>(counter: C, text: Seq<char>, n: usize) -> bool {
    exists|s: &str| s@ == text && #[trigger] call_ensures(C::count, (&counter, s), n)
}

} // verus!
