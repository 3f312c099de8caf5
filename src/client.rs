//! The client side's hold on the code that reacts to its exchanges.
use vstd::prelude::*;

verus! {

/// Holds the handler that a client connection reports to.
pub struct Handle<H> {
    handler: H,
}

impl<H> Handle<H> {
    pub closed spec fn spec_handler(&self) -> H {
        self.handler
    }

    pub fn new(handler: H) -> (r: Handle<H>)
        ensures
            r.spec_handler() == handler,
    {
        Handle { handler }
    }
}

} // verus!
