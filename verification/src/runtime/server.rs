//! A server that runs one handler for every connection.
use vstd::prelude::*;

verus! {

#[derive(Debug)]
pub struct Nea<H> {
    pub handler: H,
}

impl<H> Nea<H> {
    pub fn new(handler: H) -> (server: Self)
        ensures
            server.handler == handler,
    {
        Nea { handler }
    }
}

} // verus!
