//! A heterogeneous list built at the type level.
//!
//! A list is grown by pushing onto the front, each push wrapping the old
//! list in a new [`Chain`] link, and taken apart by popping the front
//! element back off.

use vstd::prelude::*;

verus! {

/// The end of a chain.
#[derive(Debug, Default)]
pub struct End;

/// One link: the front element and the rest of the list.
#[derive(Debug, Default)]
pub struct Chain<X, T>(pub X, pub T);

/// Growing a list by one front element.
pub trait Push<X>: Sized {
    /// The type of the grown list.
    type Next;

    /// The grown list, in contracts.
    spec fn pushed(self, other: X) -> Self::Next;

    /// Puts `other` at the front.
    fn push(self, other: X) -> (r: Self::Next)
        ensures
            r == self.pushed(other),
    ;
}

impl<X> Push<X> for () {
    type Next = Chain<X, End>;

    open spec fn pushed(self, other: X) -> Chain<X, End> {
        Chain(other, End)
    }

    fn push(self, other: X) -> (r: Chain<X, End>) {
        Chain(other, End)
    }
}

impl<T1, T2, X> Push<X> for Chain<T1, T2> {
    type Next = Chain<X, Chain<T1, T2>>;

    open spec fn pushed(self, other: X) -> Chain<X, Chain<T1, T2>> {
        Chain(other, self)
    }

    fn push(self, other: X) -> (r: Chain<X, Chain<T1, T2>>) {
        Chain(other, self)
    }
}

/// Taking the front element back off a list.
pub trait Pop<X>: Sized {
    /// The type of the remaining list.
    type Next;

    /// The front element and the rest, in contracts.
    spec fn popped(self) -> (X, Self::Next);

    /// Splits the list into its front element and the rest.
    fn pop(self) -> (r: (X, Self::Next))
        ensures
            r == self.popped(),
    ;
}

impl<T1, X> Pop<X> for Chain<X, T1> {
    type Next = T1;

    open spec fn popped(self) -> (X, T1) {
        (self.0, self.1)
    }

    fn pop(self) -> (r: (X, T1)) {
        (self.0, self.1)
    }
}

} // verus!
