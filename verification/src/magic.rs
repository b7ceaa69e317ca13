//! Extractors of the arguments of a function call.

use vstd::prelude::*;

verus! {

/// The receiver of a method call, as in `this` of `this.contains(arg)`.
pub struct This<T>(pub T);

/// An identifier passed to a function, as `x` in `[1, 2].map(x, x * 2)`.
#[derive(Clone, Debug, PartialEq)]
pub struct Identifier(pub String);

/// Marks a function that takes the function context as its first argument.
pub struct WithFunctionContext;

impl Identifier {
    /// The name of the identifier.
    pub fn name(&self) -> (s: &str)
        ensures
            s@ == self.0@,
    {
        self.0.as_str()
    }
}

} // verus!
