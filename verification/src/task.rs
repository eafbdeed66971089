//! A worker task as its owner holds it: the channel that feeds it and the
//! handle that stops it.
use vstd::prelude::*;

verus! {

pub struct Task<S, H> {
    pub tx: S,
    pub handle: H,
}

impl<S, H> Task<S, H> {
    pub fn new(tx: S, handle: H) -> (r: Self)
        ensures
            r.tx == tx,
            r.handle == handle,
    {
        Task { tx, handle }
    }
}

} // verus!
