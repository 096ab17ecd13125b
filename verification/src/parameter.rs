//! The attributes of a model as the fitting front-end declares them.
use vstd::prelude::*;

verus! {

/// A named quantity of a model.  A fixed parameter is held constant during a fit.
#[derive(Debug, Clone)]
pub struct Parameter {
    name: String,
    fixed: bool,
}

impl Parameter {
    /// The name of the parameter.
    pub closed spec fn name(&self) -> String {
        self.name
    }

    /// Whether the parameter is held constant.
    pub closed spec fn fixed(&self) -> bool {
        self.fixed
    }

    pub fn new(name: String, fixed: bool) -> (parameter: Self)
        ensures
            parameter.name() == name,
            parameter.fixed() == fixed,
    {
        Self { name, fixed }
    }

    /// Reads the name of the parameter.
    pub fn get_name(&self) -> (name: &String)
        ensures
            *name == self.name(),
    {
        &self.name
    }

    /// Reads whether the parameter is held constant.
    pub fn is_fixed(&self) -> (fixed: bool)
        ensures
            fixed == self.fixed(),
    {
        self.fixed
    }
}

} // verus!
