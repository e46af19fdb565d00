use vstd::prelude::*;

verus! {

/// A unit of work that a graph executor runs once its dependencies are done.
pub trait Executable {
    fn exec(&mut self);
}

} // verus!
