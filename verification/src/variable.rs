//! Named inputs of an expression.
use vstd::prelude::*;

verus! {

/// A named input: a parameter when `fixed` is false, a datum when it is true.
#[derive(Debug, PartialEq, Eq, Hash)]
pub struct Variable {
    pub name: String,
    pub fixed: bool,
}

impl Clone for Variable {
    fn clone(&self) -> (copy: Self)
        ensures
            copy == *self,
    {
        Variable { name: self.name.clone(), fixed: self.fixed }
    }
}

} // verus!
