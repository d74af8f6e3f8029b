use vstd::prelude::*;

verus! {

/// Additional global options for how parameters are read from the options
#[derive(Debug, Clone, Copy)]
pub struct ParamConfig {
    pub single_radius: bool,
}

impl Default for ParamConfig {
    fn default() -> (c: Self)
        ensures
            c.single_radius,
    {
        ParamConfig { single_radius: true }
    }
}

} // verus!
