//! Sketches of language features still being designed.
use vstd::prelude::*;

verus! {

/// A record whose last field is private.
pub struct Person {
    pub age: i32,
    pub name: String,
    inner_id: i32,
}

/// A conversion that consumes its input.
pub trait Convert<T>: Sized {
    fn convert(self) -> T;
}

/// A conversion that may be applied implicitly; by default it is the
/// conversion itself.
pub trait Coercion<T>: Convert<T> {
    fn coerce(self) -> (r: T)
        default_ensures
            call_ensures(Self::convert, (self,), r),
    {
        self.convert()
    }
}

} // verus!
