//! The decoration value a server shares with every handler.
use std::sync::Arc;
use vstd::prelude::*;

verus! {

/// A shared counter handed to every handler alongside the request.
#[derive(Debug)]
pub struct Test {
    field: Arc<usize>,
}

impl Test {
    /// The value this decoration carries.
    pub closed spec fn value(&self) -> usize {
        *self.field
    }

    /// A decoration carrying `field`.
    pub fn new(field: Arc<usize>) -> (r: Test)
        ensures
            r.value() == *field,
    {
        Test { field }
    }
}

} // verus!
